//! Extract the actual test structure from a source file, with a pack's
//! tree-sitter query or its lexical profile.
//!
//! The query uses a small capture vocabulary:
//!
//! - `@block` / `@block.name` — a nesting construct (a Rust `mod`, a vitest
//!   `describe(...)`) and the node holding its name.
//! - `@test` / `@test.name` — a test definition and the node holding its name.
//! - `@test.marker` — optional; a node (e.g. a `#[test]` attribute) that must
//!   directly precede a `@test` among its siblings for it to count, when the
//!   pack sets `extract.test_requires_marker = true`.
//! - `@unsupported` — optional; a construct that no tree can represent.
//!
//! A pack that sets `extract.aliases` has a second query, with the captures
//! `@alias.name` and `@alias.value`: a name, and what a source binds it to.
//!
//! Nesting is derived structurally: a captured definition's parent is the
//! smallest captured block that contains it. This works for both block-based
//! languages (describe callbacks) and item-based ones (mods) without any
//! language-specific logic.

use vstd::prelude::*;
use tree_sitter::{Language, Tree};
use crate::aliases::{expand, resolve_aliases, Dialect};
use crate::bytes::slice;
use crate::error::Error;
use crate::lexical;
use crate::literal::decode_js_string;
use crate::pack::{
    grammar_for, Grammar, GrammarSource, Manifest, NameSyntax, NativeGrammar, Pack,
};
use crate::text::{contains, owned};
use crate::treesitter::{self, siblings_before, spanning};

verus! {

use crate::aliases::{aliases_of, expanded};
use crate::bytes::{law_offsets_give_the_part_back, slice_between};
use vstd::utf8::encode_utf8;
use crate::error::ErrorView;
use crate::literal::{is_quote, js_value, law_quoted_text_round_trips, spelled};
use crate::pack::{
    grammar_of, pair_views, GrammarSourceView, GrammarView, ManifestView, PackView,
};
use crate::text::{has_part, opt_view, views};
use crate::treesitter::{
    capture_number, earlier_siblings, gives_tree, language_fault, language_grammar, match_views, query_fault,
    query_matches, sibling_views, spanning_ranges, tree_contents, tree_errs,
};

/// Whether an extracted node is a nesting block or a test definition.
#[derive(Debug, Clone, Copy, PartialEq, Eq, Structural)]
pub enum ActualKind {
    /// A nesting construct (`mod`, `describe`).
    Block,
    /// A test definition (`#[test] fn`, `it(...)`).
    Test,
}

/// One node of the structure actually present in a test file.
#[derive(Debug, PartialEq, Eq)]
pub struct ActualNode {
    /// Block or test.
    pub kind: ActualKind,
    /// The identifier / title as written in the source.
    pub name: String,
    /// 1-based line of the definition.
    pub line: usize,
    /// Nested nodes (always empty for tests).
    pub children: Vec<ActualNode>,
}

/// The model of an [`ActualNode`].
pub struct ActualView {
    pub kind: ActualKind,
    pub name: Seq<char>,
    pub line: nat,
    pub children: Seq<ActualView>,
}

pub open spec fn actual_view(node: ActualNode) -> ActualView
    decreases node,
{
    ActualView {
        kind: node.kind,
        name: node.name@,
        line: node.line as nat,
        children: Seq::new(
            node.children@.len(),
            |i: int|
                if 0 <= i < node.children@.len() {
                    actual_view(node.children@[i])
                } else {
                    arbitrary()
                },
        ),
    }
}

impl View for ActualNode {
    type V = ActualView;

    open spec fn view(&self) -> ActualView {
        actual_view(*self)
    }
}

/// The children of a node's model are the models of its children.
pub broadcast proof fn lemma_actual_children(node: ActualNode)
    ensures
        #[trigger] actual_view(node).children == views(node.children@),
{
    assert(actual_view(node).children =~= views(node.children@));
}

impl Clone for ActualNode {
    fn clone(&self) -> (out: Self)
        ensures
            out@ == self@,
        decreases self,
    {
        let mut children: Vec<ActualNode> = Vec::new();
        let mut i: usize = 0;
        while i < self.children.len()
            invariant
                i <= self.children@.len(),
                views(children@) == views(self.children@).take(i as int),
            decreases self.children@.len() - i,
        {
            let ghost before = views(children@);
            let child = self.children[i].clone();
            children.push(child);
            i += 1;
            assert(views(children@) =~= before.push(child@));
            assert(views(self.children@).take(i as int) =~= before.push(
                views(self.children@)[i - 1],
            ));
        }
        assert(views(self.children@).take(i as int) =~= views(self.children@));
        let out = ActualNode {
            kind: self.kind,
            name: self.name.clone(),
            line: self.line,
            children,
        };
        proof {
            lemma_actual_children(*self);
            lemma_actual_children(out);
        }
        out
    }
}

/// The nodes without the blocks that contain no tests anywhere below them.
pub open spec fn pruned(nodes: Seq<ActualView>) -> Seq<ActualView>
    decreases nodes,
{
    if nodes.len() == 0 {
        Seq::empty()
    } else {
        let before = pruned(nodes.drop_last());
        let last = nodes.last();
        let children = pruned(last.children);
        match last.kind {
            ActualKind::Test => before.push(last),
            ActualKind::Block => if children.len() == 0 {
                before
            } else {
                before.push(ActualView { children, ..last })
            },
        }
    }
}

impl ActualNode {
    /// Drop blocks that contain no tests anywhere below them (helper mods,
    /// non-test describes) so they don't show up as noise in diffs.
    #[must_use]
    pub fn prune_empty_blocks(nodes: Vec<ActualNode>) -> (out: Vec<ActualNode>)
        ensures
            views(out@) == pruned(views(nodes@)),
        decreases nodes,
    {
        let mut out: Vec<ActualNode> = Vec::new();
        let ghost all = views(nodes@);
        assert(all.take(0) =~= Seq::empty());
        assert(views(out@) =~= Seq::empty());
        for n in it: nodes
            invariant
                it.seq() == nodes@,
                all == views(nodes@),
                views(out@) == pruned(all.take(it.index() as int)),
        {
            let ghost k = it.index() as int;
            let ghost before = views(out@);
            proof {
                assert(all.take(k + 1).drop_last() =~= all.take(k));
                assert(n == nodes@[k]);
                lemma_actual_children(n);
            }
            match n.kind {
                ActualKind::Test => {
                    out.push(n);
                    assert(views(out@) =~= before.push(n@));
                },
                ActualKind::Block => {
                    let ghost was = n@;
                    let children = Self::prune_empty_blocks(n.children);
                    assert(views(children@).len() == children@.len());
                    if children.len() > 0 {
                        let kept = ActualNode { kind: n.kind, name: n.name, line: n.line, children };
                        proof {
                            lemma_actual_children(kept);
                        }
                        out.push(kept);
                        assert(views(out@) =~= before.push(kept@));
                    }
                },
            }
        }
        assert(all.take(all.len() as int) =~= all);
        out
    }
}

/// The tests among the nodes and below them, in document order, each by
/// name and line.
pub open spec fn tests_of(nodes: Seq<ActualView>) -> Seq<(Seq<char>, nat)>
    decreases nodes,
{
    if nodes.len() == 0 {
        Seq::empty()
    } else {
        let last = nodes.last();
        tests_of(nodes.drop_last()) + match last.kind {
            ActualKind::Test => seq![(last.name, last.line)],
            ActualKind::Block => tests_of(last.children),
        }
    }
}

/// Whether every block, at every depth, has a test below it.
pub open spec fn no_empty_blocks(nodes: Seq<ActualView>) -> bool
    decreases nodes,
{
    nodes.len() > 0 ==> {
        let last = nodes.last();
        &&& no_empty_blocks(nodes.drop_last())
        &&& last.kind == ActualKind::Block ==> tests_of(last.children).len() > 0
            && no_empty_blocks(last.children)
    }
}

/// Pruning keeps every test, and a pruned structure has no block without a
/// test.
pub proof fn law_pruning_keeps_the_tests(nodes: Seq<ActualView>)
    ensures
        tests_of(pruned(nodes)) == tests_of(nodes),
        no_empty_blocks(pruned(nodes)),
        pruned(nodes).len() > 0 ==> tests_of(pruned(nodes)).len() > 0,
    decreases nodes,
{
    if nodes.len() > 0 {
        let last = nodes.last();
        let before = pruned(nodes.drop_last());
        law_pruning_keeps_the_tests(nodes.drop_last());
        law_pruning_keeps_the_tests(last.children);
        let after = pruned(nodes);
        match last.kind {
            ActualKind::Test => {
                assert(after.drop_last() =~= before);
            },
            ActualKind::Block => {
                let children = pruned(last.children);
                if children.len() == 0 {
                    assert(tests_of(children) =~= Seq::empty());
                    assert(tests_of(nodes) =~= tests_of(before));
                } else {
                    assert(after.drop_last() =~= before);
                }
            },
        }
    } else {
        assert(tests_of(pruned(nodes)) =~= tests_of(nodes));
    }
}

/// Pruning a pruned structure changes nothing.
pub proof fn law_pruning_is_idempotent(nodes: Seq<ActualView>)
    ensures
        pruned(pruned(nodes)) == pruned(nodes),
    decreases nodes,
{
    if nodes.len() > 0 {
        let last = nodes.last();
        let before = pruned(nodes.drop_last());
        law_pruning_is_idempotent(nodes.drop_last());
        law_pruning_is_idempotent(last.children);
        let after = pruned(nodes);
        if last.kind == ActualKind::Test || pruned(last.children).len() > 0 {
            assert(after.drop_last() =~= before);
        }
    }
}

/// The title that a captured name stands for.
pub open spec fn decoded(syntax: NameSyntax, raw: Seq<char>) -> Seq<char> {
    match syntax {
        NameSyntax::Raw => raw,
        NameSyntax::JsString => js_value(raw),
    }
}

/// The title that a captured name stands for.
pub fn decode_name(syntax: NameSyntax, raw: &str) -> (out: String)
    ensures
        out@ == decoded(syntax, raw@),
{
    match syntax {
        NameSyntax::Raw => owned(raw),
        NameSyntax::JsString => decode_js_string(raw),
    }
}

/// A recognized construct that no tree can represent.
#[derive(Debug, Clone, Copy, PartialEq, Eq, Structural)]
pub struct Unsupported {
    /// 1-based line of the construct.
    pub line: usize,
}

/// The model of an [`Unsupported`] construct.
pub struct UnsupportedView {
    pub line: nat,
}

impl View for Unsupported {
    type V = UnsupportedView;

    open spec fn view(&self) -> UnsupportedView {
        UnsupportedView { line: self.line as nat }
    }
}

/// Everything extracted from one source file.
#[derive(Debug, PartialEq, Eq)]
pub struct Extraction {
    /// The test structure, without blocks that contain no tests.
    pub nodes: Vec<ActualNode>,
    /// The constructs that no tree can represent.
    pub unsupported: Vec<Unsupported>,
    /// All captured definitions with their spans.
    pub source_nodes: Vec<SourceNode>,
    /// Whether the grammar found syntax errors.
    pub has_parse_errors: bool,
}

/// The model of an [`Extraction`].
#[verifier::ext_equal]
pub struct ExtractionView {
    pub nodes: Seq<ActualView>,
    pub unsupported: Seq<UnsupportedView>,
    pub source_nodes: Seq<SourceView>,
    pub has_parse_errors: bool,
}

impl View for Extraction {
    type V = ExtractionView;

    open spec fn view(&self) -> ExtractionView {
        ExtractionView {
            nodes: views(self.nodes@),
            unsupported: views(self.unsupported@),
            source_nodes: views(self.source_nodes@),
            has_parse_errors: self.has_parse_errors,
        }
    }
}

/// A captured definition, before nesting is derived.
#[derive(Debug, Clone)]
pub struct Capture {
    /// Block or test.
    pub kind: ActualKind,
    /// The decoded name.
    pub name: String,
    /// 1-based line of the definition.
    pub line: usize,
    /// The byte offset where the definition starts.
    pub start: usize,
    /// The byte offset after the definition's end.
    pub end: usize,
}

/// The model of a [`Capture`].
pub struct CaptureView {
    pub kind: ActualKind,
    pub name: Seq<char>,
    pub line: nat,
    pub start: nat,
    pub end: nat,
}

impl View for Capture {
    type V = CaptureView;

    open spec fn view(&self) -> CaptureView {
        CaptureView {
            kind: self.kind,
            name: self.name@,
            line: self.line as nat,
            start: self.start as nat,
            end: self.end as nat,
        }
    }
}

/// One definition of a source file with its byte span and what it contains.
#[derive(Debug, PartialEq, Eq)]
pub struct SourceNode {
    /// Block or test.
    pub kind: ActualKind,
    /// The decoded name.
    pub name: String,
    /// 1-based line of the definition.
    pub line: usize,
    /// The byte offset where the definition starts.
    pub start: usize,
    /// The byte offset after the definition's end.
    pub end: usize,
    /// Nested definitions (always empty for tests).
    pub children: Vec<SourceNode>,
}

/// The model of a [`SourceNode`].
pub struct SourceView {
    pub kind: ActualKind,
    pub name: Seq<char>,
    pub line: nat,
    pub start: nat,
    pub end: nat,
    pub children: Seq<SourceView>,
}

pub open spec fn source_view(node: SourceNode) -> SourceView
    decreases node,
{
    SourceView {
        kind: node.kind,
        name: node.name@,
        line: node.line as nat,
        start: node.start as nat,
        end: node.end as nat,
        children: Seq::new(
            node.children@.len(),
            |i: int|
                if 0 <= i < node.children@.len() {
                    source_view(node.children@[i])
                } else {
                    arbitrary()
                },
        ),
    }
}

impl View for SourceNode {
    type V = SourceView;

    open spec fn view(&self) -> SourceView {
        source_view(*self)
    }
}

/// The children of a node's model are the models of its children.
pub broadcast proof fn lemma_source_children(node: SourceNode)
    ensures
        #[trigger] source_view(node).children == views(node.children@),
{
    assert(source_view(node).children =~= views(node.children@));
}

/// Whether `a` comes before `b` in document order: it starts earlier, or
/// starts at the same place and ends later.
pub open spec fn precedes(a: CaptureView, b: CaptureView) -> bool {
    a.start < b.start || (a.start == b.start && a.end > b.end)
}

/// The captures with `c` put after all that it does not precede.
pub open spec fn insert_ordered(s: Seq<CaptureView>, c: CaptureView) -> Seq<CaptureView>
    decreases s.len(),
{
    if s.len() == 0 || !precedes(c, s.last()) {
        s.push(c)
    } else {
        insert_ordered(s.drop_last(), c).push(s.last())
    }
}

/// The captures in document order, outer definitions before inner ones;
/// captures of one span keep their order.
pub open spec fn in_order(s: Seq<CaptureView>) -> Seq<CaptureView>
    decreases s.len(),
{
    if s.len() == 0 {
        Seq::empty()
    } else {
        insert_ordered(in_order(s.drop_last()), s.last())
    }
}

/// Whether two captures are of one kind and span.
pub open spec fn same_definition(a: CaptureView, b: CaptureView) -> bool {
    a.start == b.start && a.end == b.end && a.kind == b.kind
}

/// The captures without those that repeat the definition just before them.
pub open spec fn without_repeats(s: Seq<CaptureView>) -> Seq<CaptureView>
    decreases s.len(),
{
    if s.len() <= 1 {
        s
    } else if same_definition(s[s.len() - 2], s.last()) {
        without_repeats(s.drop_last())
    } else {
        without_repeats(s.drop_last()).push(s.last())
    }
}

/// Put captures into document order (parents before children) and drop
/// repeats: a node can appear in multiple matches.
pub fn order_captures(captures: Vec<Capture>) -> (out: Vec<Capture>)
    ensures
        views(out@) == without_repeats(in_order(views(captures@))),
{
    let mut sorted: Vec<Capture> = Vec::new();
    let ghost all = views(captures@);
    assert(all.take(0) =~= Seq::empty());
    assert(views(sorted@) =~= Seq::empty());
    for c in it: captures
        invariant
            it.seq() == captures@,
            all == views(captures@),
            views(sorted@) == in_order(all.take(it.index() as int)),
    {
        let ghost k = it.index() as int;
        let ghost before = views(sorted@);
        assert(all.take(k + 1).drop_last() =~= all.take(k));
        let mut at: usize = sorted.len();
        assert(before.take(at as int) =~= before);
        assert(before.skip(at as int) =~= Seq::empty());
        assert(insert_ordered(before, c@) + Seq::<CaptureView>::empty() =~= insert_ordered(
            before,
            c@,
        ));
        while at > 0 && (c.start < sorted[at - 1].start || (c.start == sorted[at - 1].start && c.end
            > sorted[at - 1].end))
            invariant
                at <= sorted@.len(),
                before == views(sorted@),
                insert_ordered(before, c@) == insert_ordered(before.take(at as int), c@)
                    + before.skip(at as int),
            decreases at,
        {
            let ghost head = before.take(at as int);
            proof {
                assert(head.last() == sorted@[at - 1]@);
                assert(head.drop_last() =~= before.take(at - 1));
                assert(insert_ordered(head.drop_last(), c@).push(head.last()) + before.skip(
                    at as int,
                ) =~= insert_ordered(before.take(at - 1), c@) + before.skip(at - 1));
            }
            at -= 1;
        }
        proof {
            if at > 0 {
                assert(before.take(at as int).last() == sorted@[at - 1]@);
            }
            assert(insert_ordered(before.take(at as int), c@) == before.take(at as int).push(c@));
        }
        sorted.insert(at, c);
        assert(views(sorted@) =~= before.take(at as int).push(c@) + before.skip(at as int));
    }
    assert(all.take(all.len() as int) =~= all);
    let ghost ordered = views(sorted@);
    let mut out: Vec<Capture> = Vec::new();
    let mut last: Option<(usize, usize, ActualKind)> = None;
    assert(ordered.take(0) =~= Seq::empty());
    assert(views(out@) =~= Seq::empty());
    for c in it: sorted
        invariant
            it.seq() == sorted@,
            ordered == views(sorted@),
            views(out@) == without_repeats(ordered.take(it.index() as int)),
            it.index() == 0 ==> last is None,
            it.index() > 0 ==> last == Some(
                (
                    sorted@[it.index() - 1].start,
                    sorted@[it.index() - 1].end,
                    sorted@[it.index() - 1].kind,
                ),
            ),
    {
        let ghost k = it.index() as int;
        let ghost before = views(out@);
        let ghost now = ordered.take(k + 1);
        proof {
            assert(now.drop_last() =~= ordered.take(k));
            assert(now.last() == c@);
            if k > 0 {
                assert(now[now.len() - 2] == sorted@[k - 1]@);
            } else {
                assert(now =~= before.push(c@));
            }
        }
        let repeat = match last {
            Some((start, end, kind)) => start == c.start && end == c.end && kind == c.kind,
            None => false,
        };
        last = Some((c.start, c.end, c.kind));
        if !repeat {
            out.push(c);
            assert(views(out@) =~= before.push(c@));
        }
    }
    assert(ordered.take(ordered.len() as int) =~= ordered);
    out
}

/// The nodes that the captures from `i` make up before `limit`, and the
/// first capture that is not among them: a block takes in every following
/// capture that starts before its end.
pub open spec fn nested(captures: Seq<CaptureView>, i: int, limit: nat) -> (Seq<SourceView>, int)
    decreases captures.len() - i,
{
    if i < 0 || i >= captures.len() || captures[i].start >= limit {
        (Seq::empty(), i)
    } else {
        let c = captures[i];
        let inner = match c.kind {
            ActualKind::Block => nested(captures, i + 1, c.end),
            ActualKind::Test => (Seq::empty(), i + 1),
        };
        let node = SourceView {
            kind: c.kind,
            name: c.name,
            line: c.line,
            start: c.start,
            end: c.end,
            children: inner.0,
        };
        if inner.1 <= i || inner.1 > captures.len() {
            (seq![node], i)
        } else {
            let rest = nested(captures, inner.1, limit);
            (seq![node] + rest.0, rest.1)
        }
    }
}

/// A nesting step moves forward and stays within the captures.
pub proof fn lemma_nested_moves(captures: Seq<CaptureView>, i: int, limit: nat)
    requires
        0 <= i <= captures.len(),
    ensures
        i <= nested(captures, i, limit).1 <= captures.len(),
    decreases captures.len() - i,
{
    if i < captures.len() && captures[i].start < limit {
        let c = captures[i];
        if c.kind == ActualKind::Block {
            lemma_nested_moves(captures, i + 1, c.end);
            lemma_nested_moves(captures, nested(captures, i + 1, c.end).1, limit);
        } else {
            lemma_nested_moves(captures, i + 1, limit);
        }
    }
}

/// Build the nodes of the captures from `from` on that start before `limit`.
fn build_nodes(captures: &[Capture], from: usize, limit: usize) -> (out: (Vec<SourceNode>, usize))
    requires
        from <= captures@.len(),
    ensures
        from <= out.1 <= captures@.len(),
        (views(out.0@), out.1 as int) == nested(views(captures@), from as int, limit as nat),
    decreases captures@.len() - from,
{
    let ghost all = views(captures@);
    let mut nodes: Vec<SourceNode> = Vec::new();
    let mut i: usize = from;
    assert(views(nodes@) =~= Seq::empty());
    assert(Seq::<SourceView>::empty() + nested(all, from as int, limit as nat).0 =~= nested(
        all,
        from as int,
        limit as nat,
    ).0);
    while i < captures.len() && captures[i].start < limit
        invariant
            from <= i <= captures@.len(),
            all == views(captures@),
            ({
                let rest = nested(all, i as int, limit as nat);
                nested(all, from as int, limit as nat) == (views(nodes@) + rest.0, rest.1)
            }),
        decreases captures@.len() - i,
    {
        let c = &captures[i];
        let ghost before = views(nodes@);
        proof {
            lemma_nested_moves(all, i + 1, c@.end);
        }
        let (children, next) = match c.kind {
            ActualKind::Block => build_nodes(captures, i + 1, c.end),
            ActualKind::Test => (Vec::new(), i + 1),
        };
        let node = SourceNode {
            kind: c.kind,
            name: c.name.clone(),
            line: c.line,
            start: c.start,
            end: c.end,
            children,
        };
        proof {
            lemma_source_children(node);
            if c.kind == ActualKind::Test {
                assert(views(children@) =~= Seq::empty());
            }
        }
        let ghost rest = nested(all, next as int, limit as nat);
        nodes.push(node);
        proof {
            assert(views(nodes@) =~= before.push(node@));
            assert(nested(all, i as int, limit as nat) == (seq![node@] + rest.0, rest.1));
            assert(before + (seq![node@] + rest.0) =~= views(nodes@) + rest.0);
        }
        i = next;
    }
    assert(nested(all, i as int, limit as nat).0 =~= Seq::empty());
    assert(views(nodes@) + Seq::<SourceView>::empty() =~= views(nodes@));
    (nodes, i)
}

/// The forest of a file's captures.
pub open spec fn forest(captures: Seq<CaptureView>) -> Seq<SourceView> {
    nested(captures, 0, usize::MAX as nat).0
}

/// Derive the forest of ordered captures: a block's descendants are exactly
/// the following captures whose start lies before the block's end.
pub fn nest(captures: &[Capture]) -> (out: Vec<SourceNode>)
    ensures
        views(out@) == forest(views(captures@)),
{
    build_nodes(captures, 0, usize::MAX).0
}

/// The nodes without their spans.
pub open spec fn actual_of(nodes: Seq<SourceView>) -> Seq<ActualView>
    decreases nodes,
{
    if nodes.len() == 0 {
        Seq::empty()
    } else {
        let last = nodes.last();
        actual_of(nodes.drop_last()).push(
            ActualView {
                kind: last.kind,
                name: last.name,
                line: last.line,
                children: actual_of(last.children),
            },
        )
    }
}

/// The nodes without their spans.
pub fn actual_nodes(nodes: &Vec<SourceNode>) -> (out: Vec<ActualNode>)
    ensures
        views(out@) == actual_of(views(nodes@)),
    decreases nodes,
{
    let mut out: Vec<ActualNode> = Vec::new();
    let ghost all = views(nodes@);
    let mut i: usize = 0;
    assert(all.take(0) =~= Seq::empty());
    assert(views(out@) =~= Seq::empty());
    while i < nodes.len()
        invariant
            i <= nodes@.len(),
            all == views(nodes@),
            views(out@) == actual_of(all.take(i as int)),
        decreases nodes@.len() - i,
    {
        let n = &nodes[i];
        let ghost before = views(out@);
        proof {
            assert(all.take(i + 1).drop_last() =~= all.take(i as int));
            lemma_source_children(*n);
        }
        let node = ActualNode {
            kind: n.kind,
            name: n.name.clone(),
            line: n.line,
            children: actual_nodes(&n.children),
        };
        proof {
            lemma_actual_children(node);
        }
        out.push(node);
        assert(views(out@) =~= before.push(node@));
        i += 1;
    }
    assert(all.take(i as int) =~= all);
    out
}

/// The definitions of a forest in document order.
pub open spec fn definitions(nodes: Seq<SourceView>) -> Seq<CaptureView>
    decreases nodes,
{
    if nodes.len() == 0 {
        Seq::empty()
    } else {
        let last = nodes.last();
        definitions(nodes.drop_last()).push(
            CaptureView {
                kind: last.kind,
                name: last.name,
                line: last.line,
                start: last.start,
                end: last.end,
            },
        ) + definitions(last.children)
    }
}

proof fn lemma_definitions_concat(a: Seq<SourceView>, b: Seq<SourceView>)
    ensures
        definitions(a + b) == definitions(a) + definitions(b),
    decreases b.len(),
{
    if b.len() == 0 {
        assert(a + b =~= a);
        assert(definitions(a) + definitions(b) =~= definitions(a));
    } else {
        lemma_definitions_concat(a, b.drop_last());
        assert((a + b).drop_last() =~= a + b.drop_last());
        assert(definitions(a + b) =~= definitions(a) + definitions(b));
    }
}

proof fn lemma_nested_lists(captures: Seq<CaptureView>, i: int, limit: nat)
    requires
        0 <= i <= captures.len(),
    ensures
        ({
            let out = nested(captures, i, limit);
            definitions(out.0) == captures.subrange(i, out.1)
        }),
    decreases captures.len() - i,
{
    lemma_nested_moves(captures, i, limit);
    if i < captures.len() && captures[i].start < limit {
        let c = captures[i];
        let inner = match c.kind {
            ActualKind::Block => nested(captures, i + 1, c.end),
            ActualKind::Test => (Seq::empty(), i + 1),
        };
        lemma_nested_moves(captures, i + 1, c.end);
        if c.kind == ActualKind::Block {
            lemma_nested_lists(captures, i + 1, c.end);
        } else {
            assert(definitions(inner.0) =~= captures.subrange(i + 1, inner.1));
        }
        let node = SourceView {
            kind: c.kind,
            name: c.name,
            line: c.line,
            start: c.start,
            end: c.end,
            children: inner.0,
        };
        let rest = nested(captures, inner.1, limit);
        lemma_nested_moves(captures, inner.1, limit);
        lemma_nested_lists(captures, inner.1, limit);
        lemma_definitions_concat(seq![node], rest.0);
        assert(seq![node].drop_last() =~= Seq::empty());
        assert(definitions(Seq::<SourceView>::empty()) =~= Seq::empty());
        assert(definitions(seq![node]) =~= seq![c] + definitions(inner.0));
        assert(captures.subrange(i, rest.1) =~= seq![c] + captures.subrange(i + 1, inner.1)
            + captures.subrange(inner.1, rest.1));
    } else {
        assert(captures.subrange(i, i) =~= Seq::empty());
        assert(definitions(Seq::<SourceView>::empty()) =~= Seq::empty());
    }
}

/// Nesting loses and invents nothing: the forest of captures lists, in
/// document order, exactly the captures.
pub proof fn law_forest_lists_the_captures(captures: Seq<CaptureView>)
    requires
        forall|i: int|
            0 <= i < captures.len() ==> (#[trigger] captures[i]).start < usize::MAX as nat,
    ensures
        definitions(forest(captures)) == captures,
{
    lemma_nested_lists(captures, 0, usize::MAX as nat);
    lemma_nested_end(captures, 0, usize::MAX as nat);
    assert(captures.subrange(0, captures.len() as int) =~= captures);
}

proof fn lemma_nested_end(captures: Seq<CaptureView>, i: int, limit: nat)
    requires
        0 <= i <= captures.len(),
        forall|j: int| 0 <= j < captures.len() ==> (#[trigger] captures[j]).start < limit,
    ensures
        nested(captures, i, limit).1 == captures.len(),
    decreases captures.len() - i,
{
    if i < captures.len() {
        let c = captures[i];
        if c.kind == ActualKind::Block {
            lemma_nested_moves(captures, i + 1, c.end);
            lemma_nested_end(captures, nested(captures, i + 1, c.end).1, limit);
        } else {
            lemma_nested_end(captures, i + 1, limit);
        }
    }
}

/// Whether captures stand in document order and their spans nest: of two
/// spans one lies inside the other or they do not meet.
pub open spec fn spans_nest(captures: Seq<CaptureView>) -> bool {
    forall|i: int, j: int|
        #![trigger captures[i], captures[j]]
        0 <= i < j < captures.len() ==> captures[i].start <= captures[j].start && (
        captures[i].end <= captures[j].start || captures[j].end <= captures[i].end)
}

/// Whether nodes lie in the span from `lo` to `hi`, the children of each lie
/// in its own span, and what follows a block starts after the block's end.
pub open spec fn nodes_nest(nodes: Seq<SourceView>, lo: nat, hi: nat) -> bool
    decreases nodes,
{
    nodes.len() == 0 || {
        let last = nodes.last();
        &&& lo <= last.start
        &&& last.end <= hi
        &&& nodes_nest(last.children, last.start, last.end)
        &&& nodes_nest(nodes.drop_last(), lo, hi)
        &&& forall|j: int|
            0 <= j < nodes.len() - 1 && (#[trigger] nodes[j]).kind == ActualKind::Block
                ==> nodes[j].end <= last.start
    }
}

proof fn lemma_nodes_nest_prepend(node: SourceView, rest: Seq<SourceView>, lo: nat, hi: nat)
    requires
        lo <= node.start,
        node.end <= hi,
        nodes_nest(node.children, node.start, node.end),
        nodes_nest(rest, lo, hi),
        forall|k: int|
            0 <= k < rest.len() && node.kind == ActualKind::Block ==> node.end <= (
            #[trigger] rest[k]).start,
    ensures
        nodes_nest(seq![node] + rest, lo, hi),
    decreases rest.len(),
{
    let all = seq![node] + rest;
    if rest.len() == 0 {
        assert(all.drop_last() =~= Seq::empty());
        assert(all.last() == node);
        assert(nodes_nest(all.drop_last(), lo, hi));
    } else {
        let front = rest.drop_last();
        assert forall|k: int|
            0 <= k < front.len() && node.kind == ActualKind::Block implies node.end <= (
        #[trigger] front[k]).start by {
            assert(front[k] == rest[k]);
        }
        lemma_nodes_nest_prepend(node, front, lo, hi);
        assert(all.drop_last() =~= seq![node] + front);
        assert(all.last() == rest.last());
        assert(rest[rest.len() - 1] == rest.last());
        assert forall|j: int|
            0 <= j < all.len() - 1 && (#[trigger] all[j]).kind == ActualKind::Block implies all[j].end
            <= all.last().start by {
            if j > 0 {
                assert(all[j] == rest[j - 1]);
            }
        }
    }
}

proof fn lemma_nested_nests(captures: Seq<CaptureView>, i: int, limit: nat, lo: nat, hi: nat)
    requires
        0 <= i <= captures.len(),
        spans_nest(captures),
        forall|j: int|
            i <= j < captures.len() && (#[trigger] captures[j]).start < limit ==> lo
                <= captures[j].start && captures[j].end <= hi,
    ensures
        ({
            let out = nested(captures, i, limit);
            &&& nodes_nest(out.0, lo, hi)
            &&& out.1 < captures.len() ==> captures[out.1].start >= limit
            &&& forall|k: int|
                0 <= k < out.0.len() ==> captures[i].start <= (#[trigger] out.0[k]).start
        }),
    decreases captures.len() - i,
{
    if i < captures.len() && captures[i].start < limit {
        let c = captures[i];
        lemma_nested_moves(captures, i + 1, c.end);
        let inner = match c.kind {
            ActualKind::Block => nested(captures, i + 1, c.end),
            ActualKind::Test => (Seq::empty(), i + 1),
        };
        if c.kind == ActualKind::Block {
            lemma_nested_nests(captures, i + 1, c.end, c.start, c.end);
        }
        let node = SourceView {
            kind: c.kind,
            name: c.name,
            line: c.line,
            start: c.start,
            end: c.end,
            children: inner.0,
        };
        lemma_nested_nests(captures, inner.1, limit, lo, hi);
        let rest = nested(captures, inner.1, limit);
        assert forall|k: int|
            0 <= k < rest.0.len() && node.kind == ActualKind::Block implies node.end <= (
        #[trigger] rest.0[k]).start by {
            if inner.1 < captures.len() {
                assert(captures[inner.1].start >= c.end);
            } else {
                assert(rest.0.len() == 0);
            }
        }
        lemma_nodes_nest_prepend(node, rest.0, lo, hi);
        let out = nested(captures, i, limit);
        assert(out.0 =~= seq![node] + rest.0);
        assert forall|k: int| 0 <= k < out.0.len() implies captures[i].start <= (
        #[trigger] out.0[k]).start by {
            if k > 0 {
                assert(out.0[k] == rest.0[k - 1]);
                assert(inner.1 < captures.len());
            }
        }
    }
}

/// Nesting follows the spans: in the forest of captures whose spans nest, what
/// a block contains lies in its span, and what stands beside and behind a
/// block lies outside of it. So the parent of a definition is the smallest
/// captured block that contains it.
pub proof fn law_forest_follows_the_spans(captures: Seq<CaptureView>)
    requires
        spans_nest(captures),
        forall|i: int| 0 <= i < captures.len() ==> (#[trigger] captures[i]).end <= usize::MAX,
    ensures
        nodes_nest(forest(captures), 0, usize::MAX as nat),
{
    lemma_nested_nests(captures, 0, usize::MAX as nat, 0, usize::MAX as nat);
}

/// A capture of a match: its number, and its start, end and row.
pub type Hit = (u32, (usize, usize, usize));

/// The numbers of the captures that extraction understands.
#[derive(Debug, Clone, Copy)]
pub struct CaptureIds {
    /// `@block`.
    pub block: u32,
    /// `@block.name`.
    pub block_name: u32,
    /// `@test`.
    pub test: u32,
    /// `@test.name`.
    pub test_name: u32,
    /// `@test.marker`.
    pub marker: Option<u32>,
    /// `@unsupported`.
    pub unsupported: Option<u32>,
}

/// The numbers of a query's captures by name, where it has the required ones.
pub open spec fn ids_of(
    pack: Seq<char>,
    requires_marker: bool,
    block: Option<u32>,
    block_name: Option<u32>,
    test: Option<u32>,
    test_name: Option<u32>,
    marker: Option<u32>,
    unsupported: Option<u32>,
) -> Result<CaptureIds, ErrorView> {
    match (block, block_name, test, test_name) {
        (Some(block), Some(block_name), Some(test), Some(test_name)) => if requires_marker
            && marker is None {
            Err(ErrorView::MissingMarkerCapture { pack })
        } else {
            Ok(CaptureIds { block, block_name, test, test_name, marker, unsupported })
        },
        _ => Err(ErrorView::MissingCaptures { pack }),
    }
}

/// The numbers of a query's captures by name.
///
/// # Errors
///
/// A query without one of the required captures, or without `@test.marker`
/// where tests need a marker.
pub fn capture_ids(
    pack: &str,
    requires_marker: bool,
    block: Option<u32>,
    block_name: Option<u32>,
    test: Option<u32>,
    test_name: Option<u32>,
    marker: Option<u32>,
    unsupported: Option<u32>,
) -> (out: Result<CaptureIds, Error>)
    ensures
        ({
            let ids = ids_of(
                pack@,
                requires_marker,
                block,
                block_name,
                test,
                test_name,
                marker,
                unsupported,
            );
            match out {
                Ok(found) => ids == Ok::<CaptureIds, ErrorView>(found),
                Err(e) => ids == Err::<CaptureIds, ErrorView>(e@),
            }
        }),
{
    match (block, block_name, test, test_name) {
        (Some(block), Some(block_name), Some(test), Some(test_name)) => {
            if requires_marker && marker.is_none() {
                Err(Error::MissingMarkerCapture { pack: owned(pack) })
            } else {
                Ok(CaptureIds { block, block_name, test, test_name, marker, unsupported })
            }
        },
        _ => Err(Error::MissingCaptures { pack: owned(pack) }),
    }
}

/// The first capture of a match with a number.
pub open spec fn hit_for(hits: Seq<Hit>, index: u32) -> Option<(usize, usize, usize)>
    decreases hits.len(),
{
    if hits.len() == 0 {
        None
    } else {
        match hit_for(hits.drop_last(), index) {
            Some(place) => Some(place),
            None => if hits.last().0 == index {
                Some(hits.last().1)
            } else {
                None
            },
        }
    }
}

proof fn lemma_hit_stays(hits: Seq<Hit>, index: u32, n: int)
    requires
        0 <= n <= hits.len(),
        hit_for(hits.take(n), index) is Some,
    ensures
        hit_for(hits, index) == hit_for(hits.take(n), index),
    decreases hits.len() - n,
{
    if n < hits.len() {
        assert(hits.take(n + 1).drop_last() =~= hits.take(n));
        lemma_hit_stays(hits, index, n + 1);
    } else {
        assert(hits.take(n) =~= hits);
    }
}

fn find_hit(hits: &Vec<Hit>, index: u32) -> (out: Option<(usize, usize, usize)>)
    ensures
        out == hit_for(hits@, index),
{
    let mut i: usize = 0;
    assert(hits@.take(0) =~= Seq::empty());
    while i < hits.len()
        invariant
            i <= hits@.len(),
            hit_for(hits@.take(i as int), index) is None,
        decreases hits@.len() - i,
    {
        assert(hits@.take(i + 1).drop_last() =~= hits@.take(i as int));
        if hits[i].0 == index {
            proof {
                lemma_hit_stays(hits@, index, i + 1);
            }
            return Some(hits[i].1);
        }
        i += 1;
    }
    assert(hits@.take(i as int) =~= hits@);
    None
}

/// The definition that a node and its name make: nothing if the name does not
/// lie between characters of the source or the row has no line number.
pub open spec fn definition_at(
    kind: ActualKind,
    node: (usize, usize, usize),
    name: (usize, usize, usize),
    source: Seq<char>,
    syntax: NameSyntax,
) -> Option<CaptureView> {
    match slice_between(source, name.0 as int, name.1 as int) {
        Some(raw) => if node.2 < usize::MAX {
            Some(
                CaptureView {
                    kind,
                    name: decoded(syntax, raw),
                    line: (node.2 + 1) as nat,
                    start: node.0 as nat,
                    end: node.1 as nat,
                },
            )
        } else {
            None
        },
        None => None,
    }
}

/// The definition of a kind that a match makes, where it captures both a node
/// and its name. The outer option tells of a capture that does not fit the
/// source.
pub open spec fn definition_in(
    hits: Seq<Hit>,
    kind: ActualKind,
    node: u32,
    name: u32,
    source: Seq<char>,
    syntax: NameSyntax,
) -> Option<Seq<CaptureView>> {
    match (hit_for(hits, node), hit_for(hits, name)) {
        (Some(node), Some(name)) => match definition_at(kind, node, name, source, syntax) {
            Some(c) => Some(seq![c]),
            None => None,
        },
        _ => Some(Seq::empty()),
    }
}

/// The definitions that matches make, in their order: of each match first the
/// block, then the test.
pub open spec fn definitions_in(
    matches: Seq<Seq<Hit>>,
    ids: CaptureIds,
    source: Seq<char>,
    syntax: NameSyntax,
) -> Option<Seq<CaptureView>>
    decreases matches.len(),
{
    if matches.len() == 0 {
        Some(Seq::empty())
    } else {
        let hits = matches.last();
        let before = definitions_in(matches.drop_last(), ids, source, syntax);
        let block = definition_in(hits, ActualKind::Block, ids.block, ids.block_name, source, syntax);
        let test = definition_in(hits, ActualKind::Test, ids.test, ids.test_name, source, syntax);
        match (before, block, test) {
            (Some(before), Some(block), Some(test)) => Some(before + block + test),
            _ => None,
        }
    }
}

proof fn lemma_definitions_stop(
    matches: Seq<Seq<Hit>>,
    ids: CaptureIds,
    source: Seq<char>,
    syntax: NameSyntax,
    n: int,
)
    requires
        0 <= n <= matches.len(),
        definitions_in(matches.take(n), ids, source, syntax) is None,
    ensures
        definitions_in(matches, ids, source, syntax) is None,
    decreases matches.len() - n,
{
    if n < matches.len() {
        assert(matches.take(n + 1).drop_last() =~= matches.take(n));
        lemma_definitions_stop(matches, ids, source, syntax, n + 1);
    } else {
        assert(matches.take(n) =~= matches);
    }
}

fn define(
    hits: &Vec<Hit>,
    kind: ActualKind,
    node: u32,
    name: u32,
    source: &str,
    syntax: NameSyntax,
    captures: &mut Vec<Capture>,
) -> (fits: bool)
    ensures
        match definition_in(hits@, kind, node, name, source@, syntax) {
            Some(found) => fits && views(final(captures)@) == views(old(captures)@) + found,
            None => !fits,
        },
{
    let ghost before = views(captures@);
    match (find_hit(hits, node), find_hit(hits, name)) {
        (Some((start, end, row)), Some((name_start, name_end, _))) => {
            match slice(source, name_start, name_end) {
                Some(raw) => {
                    if row == usize::MAX {
                        return false;
                    }
                    let capture = Capture {
                        kind,
                        name: decode_name(syntax, raw.as_str()),
                        line: row + 1,
                        start,
                        end,
                    };
                    captures.push(capture);
                    assert(views(captures@) =~= before + seq![capture@]);
                    true
                },
                None => false,
            }
        },
        _ => {
            assert(views(captures@) =~= before + Seq::<CaptureView>::empty());
            true
        },
    }
}

/// The definitions that the matches of a query make, in their order; nothing
/// where a captured name does not lie between characters of the source.
pub fn define_all(
    matches: &Vec<Vec<Hit>>,
    ids: CaptureIds,
    source: &str,
    syntax: NameSyntax,
) -> (out: Option<Vec<Capture>>)
    ensures
        match out {
            Some(captures) => definitions_in(match_views(matches@), ids, source@, syntax) == Some(
                views(captures@),
            ),
            None => definitions_in(match_views(matches@), ids, source@, syntax) is None,
        },
{
    let ghost all = match_views(matches@);
    let mut captures: Vec<Capture> = Vec::new();
    let mut i: usize = 0;
    assert(all.take(0) =~= Seq::empty());
    assert(views(captures@) =~= Seq::empty());
    while i < matches.len()
        invariant
            i <= matches@.len(),
            all == match_views(matches@),
            definitions_in(all.take(i as int), ids, source@, syntax) == Some(views(captures@)),
        decreases matches@.len() - i,
    {
        let ghost before = views(captures@);
        proof {
            assert(all.take(i + 1).drop_last() =~= all.take(i as int));
            assert(all.take(i + 1).last() == matches@[i as int]@);
            if definitions_in(all.take(i + 1), ids, source@, syntax) is None {
                lemma_definitions_stop(all, ids, source@, syntax, i + 1);
            }
        }
        let hits = &matches[i];
        if !define(hits, ActualKind::Block, ids.block, ids.block_name, source, syntax, &mut captures) {
            return None;
        }
        if !define(hits, ActualKind::Test, ids.test, ids.test_name, source, syntax, &mut captures) {
            return None;
        }
        i += 1;
    }
    assert(all.take(i as int) =~= all);
    Some(captures)
}

/// The ranges of the captures of a number, one for each match that has it.
pub open spec fn ranges_in(matches: Seq<Seq<Hit>>, index: Option<u32>) -> Seq<(usize, usize)>
    decreases matches.len(),
{
    if matches.len() == 0 || index is None {
        Seq::empty()
    } else {
        let before = ranges_in(matches.drop_last(), index);
        match hit_for(matches.last(), index->0) {
            Some(place) => before.push((place.0, place.1)),
            None => before,
        }
    }
}

/// The ranges of the captures of a number, one for each match that has it.
pub fn find_ranges(matches: &Vec<Vec<Hit>>, index: Option<u32>) -> (out: Vec<(usize, usize)>)
    ensures
        out@ == ranges_in(match_views(matches@), index),
{
    let mut out: Vec<(usize, usize)> = Vec::new();
    if let Some(number) = index {
        let ghost all = match_views(matches@);
        let mut i: usize = 0;
        assert(all.take(0) =~= Seq::empty());
        while i < matches.len()
            invariant
                i <= matches@.len(),
                all == match_views(matches@),
                index == Some(number),
                out@ == ranges_in(all.take(i as int), index),
            decreases matches@.len() - i,
        {
            assert(all.take(i + 1).drop_last() =~= all.take(i as int));
            assert(all.take(i + 1).last() == matches@[i as int]@);
            if let Some((start, end, _)) = find_hit(&matches[i], number) {
                out.push((start, end));
            }
            i += 1;
        }
        assert(all.take(i as int) =~= all);
    }
    out
}

/// The captures of unsupported constructs, as definitions without a name;
/// nothing where a row has no line number.
pub open spec fn constructs_in(matches: Seq<Seq<Hit>>, index: Option<u32>) -> Option<
    Seq<CaptureView>,
>
    decreases matches.len(),
{
    if matches.len() == 0 || index is None {
        Some(Seq::empty())
    } else {
        match (constructs_in(matches.drop_last(), index), hit_for(matches.last(), index->0)) {
            (None, _) => None,
            (Some(before), None) => Some(before),
            (Some(before), Some((start, end, row))) => if row < usize::MAX {
                Some(
                    before.push(
                        CaptureView {
                            kind: ActualKind::Block,
                            name: Seq::empty(),
                            line: (row + 1) as nat,
                            start: start as nat,
                            end: end as nat,
                        },
                    ),
                )
            } else {
                None
            },
        }
    }
}

proof fn lemma_constructs_stop(matches: Seq<Seq<Hit>>, index: Option<u32>, n: int)
    requires
        0 <= n <= matches.len(),
        constructs_in(matches.take(n), index) is None,
    ensures
        constructs_in(matches, index) is None,
    decreases matches.len() - n,
{
    if n < matches.len() {
        assert(matches.take(n + 1).drop_last() =~= matches.take(n));
        lemma_constructs_stop(matches, index, n + 1);
    } else {
        assert(matches.take(n) =~= matches);
    }
}

/// The lines of definitions.
pub open spec fn lines_of(captures: Seq<CaptureView>) -> Seq<UnsupportedView> {
    captures.map_values(|c: CaptureView| UnsupportedView { line: c.line })
}

/// The lines of the unsupported constructs that matches capture, each
/// construct once, in document order; nothing where a row has no line number.
pub open spec fn unsupported_by(matches: Seq<Seq<Hit>>, index: Option<u32>) -> Option<
    Seq<UnsupportedView>,
> {
    match constructs_in(matches, index) {
        Some(found) => Some(lines_of(without_repeats(in_order(found)))),
        None => None,
    }
}

/// The lines of the unsupported constructs that matches capture, each
/// construct once, in document order; nothing where a row has no line number.
pub fn find_unsupported(matches: &Vec<Vec<Hit>>, index: Option<u32>) -> (out: Option<
    Vec<Unsupported>,
>)
    ensures
        match out {
            Some(found) => unsupported_by(match_views(matches@), index) == Some(views(found@)),
            None => unsupported_by(match_views(matches@), index) is None,
        },
{
    let mut found: Vec<Capture> = Vec::new();
    assert(views(found@) =~= Seq::empty());
    if let Some(number) = index {
        let ghost all = match_views(matches@);
        let mut i: usize = 0;
        assert(all.take(0) =~= Seq::empty());
        while i < matches.len()
            invariant
                i <= matches@.len(),
                all == match_views(matches@),
                index == Some(number),
                constructs_in(all.take(i as int), index) == Some(views(found@)),
            decreases matches@.len() - i,
        {
            let ghost before = views(found@);
            proof {
                assert(all.take(i + 1).drop_last() =~= all.take(i as int));
                assert(all.take(i + 1).last() == matches@[i as int]@);
            }
            if let Some((start, end, row)) = find_hit(&matches[i], number) {
                if row == usize::MAX {
                    proof {
                        lemma_constructs_stop(all, index, i + 1);
                    }
                    return None;
                }
                let construct = Capture {
                    kind: ActualKind::Block,
                    name: String::new(),
                    line: row + 1,
                    start,
                    end,
                };
                found.push(construct);
                assert(views(found@) =~= before.push(construct@));
            }
            i += 1;
        }
        assert(all.take(i as int) =~= all);
    }
    let ordered = order_captures(found);
    let mut out: Vec<Unsupported> = Vec::new();
    let mut i: usize = 0;
    while i < ordered.len()
        invariant
            i <= ordered@.len(),
            views(out@) == lines_of(views(ordered@)).take(i as int),
        decreases ordered@.len() - i,
    {
        let ghost before = views(out@);
        let found = Unsupported { line: ordered[i].line };
        out.push(found);
        proof {
            let all = lines_of(views(ordered@));
            assert(views(out@) =~= before.push(found@));
            assert(all[i as int] == found@);
            assert(all.take(i + 1) =~= all.take(i as int).push(all[i as int]));
        }
        i += 1;
    }
    assert(lines_of(views(ordered@)).take(i as int) =~= lines_of(views(ordered@)));
    Some(out)
}

/// How many levels above the smallest spanning node the outermost node with
/// exactly the given range is, from level `at` on.
pub open spec fn levels_up(chain: Seq<(usize, usize)>, start: usize, end: usize, at: int) -> int
    decreases chain.len() - at,
{
    if 0 <= at && at + 1 < chain.len() && chain[at + 1] == (start, end) {
        levels_up(chain, start, end, at + 1)
    } else {
        at
    }
}

/// How many levels above the smallest spanning node the outermost node with
/// exactly the given range is: the captured definition, whose siblings are
/// where markers live.
pub fn outermost(chain: &Vec<(usize, usize)>, start: usize, end: usize) -> (up: usize)
    ensures
        up == levels_up(chain@, start, end, 0),
{
    let mut up: usize = 0;
    let n: usize = chain.len();
    if n == 0 {
        return 0;
    }
    while up < n - 1 && chain[up + 1].0 == start && chain[up + 1].1 == end
        invariant
            up < n,
            n == chain@.len(),
            levels_up(chain@, start, end, up as int) == levels_up(chain@, start, end, 0),
        decreases chain@.len() - up,
    {
        up += 1;
    }
    up
}

/// Whether a marker comes before anything that is neither a comment nor an
/// attribute, from sibling `at` on.
pub open spec fn marked_from(
    siblings: Seq<(usize, usize, Seq<char>)>,
    markers: Seq<(usize, usize)>,
    at: int,
) -> bool
    decreases siblings.len() - at,
{
    if at < 0 || at >= siblings.len() {
        false
    } else {
        let (start, end, kind) = siblings[at];
        if markers.contains((start, end)) {
            true
        } else if !has_part(kind, "comment"@) && !has_part(kind, "attribute"@) {
            false
        } else {
            marked_from(siblings, markers, at + 1)
        }
    }
}

/// A test has a marker if, walking backwards through its previous named
/// siblings, we hit a marker range before hitting any non-marker,
/// non-comment, non-attribute node.
pub fn is_marked(siblings: &Vec<(usize, usize, String)>, markers: &Vec<(usize, usize)>) -> (yes: bool)
    ensures
        yes == marked_from(sibling_views(siblings@), markers@, 0),
{
    let ghost all = sibling_views(siblings@);
    let mut at: usize = 0;
    while at < siblings.len()
        invariant
            at <= siblings@.len(),
            all == sibling_views(siblings@),
            marked_from(all, markers@, at as int) == marked_from(all, markers@, 0),
        decreases siblings@.len() - at,
    {
        let (start, end, kind) = &siblings[at];
        assert(all[at as int] == (*start, *end, kind@));
        let mut m: usize = 0;
        while m < markers.len()
            invariant
                m <= markers@.len(),
                at < siblings@.len(),
                all == sibling_views(siblings@),
                all[at as int] == (*start, *end, kind@),
                marked_from(all, markers@, at as int) == marked_from(all, markers@, 0),
                forall|j: int| 0 <= j < m ==> markers@[j] != (*start, *end),
            decreases markers@.len() - m,
        {
            if markers[m].0 == *start && markers[m].1 == *end {
                assert(markers@[m as int] == (*start, *end));
                return true;
            }
            m += 1;
        }
        assert(!markers@.contains((*start, *end)));
        if !contains(kind.as_str(), "comment") && !contains(kind.as_str(), "attribute") {
            return false;
        }
        at += 1;
    }
    false
}

/// Whether the tree of a source has a marker before a test.
pub open spec fn has_marker(
    grammar: NativeGrammar,
    source: Seq<char>,
    start: usize,
    end: usize,
    markers: Seq<(usize, usize)>,
) -> bool {
    let chain = spanning_ranges(grammar, source, start, end);
    chain.len() > 0 && marked_from(
        earlier_siblings(grammar, source, start, end, levels_up(chain, start, end, 0) as usize),
        markers,
        0,
    )
}

/// The definitions without the tests that have no marker.
pub open spec fn with_markers(
    captures: Seq<CaptureView>,
    grammar: NativeGrammar,
    source: Seq<char>,
    markers: Seq<(usize, usize)>,
) -> Seq<CaptureView>
    decreases captures.len(),
{
    if captures.len() == 0 {
        Seq::empty()
    } else {
        let c = captures.last();
        let before = with_markers(captures.drop_last(), grammar, source, markers);
        if c.kind == ActualKind::Block || has_marker(
            grammar,
            source,
            c.start as usize,
            c.end as usize,
            markers,
        ) {
            before.push(c)
        } else {
            before
        }
    }
}

fn keep_marked(captures: Vec<Capture>, tree: &Tree, markers: &Vec<(usize, usize)>) -> (out: Vec<
    Capture,
>)
    ensures
        views(out@) == with_markers(
            views(captures@),
            tree_contents(*tree).0,
            tree_contents(*tree).1,
            markers@,
        ),
{
    let mut out: Vec<Capture> = Vec::new();
    let ghost all = views(captures@);
    assert(all.take(0) =~= Seq::empty());
    assert(views(out@) =~= Seq::empty());
    for c in it: captures
        invariant
            it.seq() == captures@,
            all == views(captures@),
            views(out@) == with_markers(
                all.take(it.index() as int),
                tree_contents(*tree).0,
                tree_contents(*tree).1,
                markers@,
            ),
    {
        let ghost k = it.index() as int;
        let ghost before = views(out@);
        assert(all.take(k + 1).drop_last() =~= all.take(k));
        assert(all.take(k + 1).last() == c@);
        let keep = match c.kind {
            ActualKind::Block => true,
            ActualKind::Test => {
                let chain = spanning(tree, c.start, c.end);
                if chain.len() == 0 {
                    false
                } else {
                    let up: usize = outermost(&chain, c.start, c.end);
                    is_marked(&siblings_before(tree, c.start, c.end, up), markers)
                }
            },
        };
        if keep {
            out.push(c);
            assert(views(out@) =~= before.push(c@));
        }
    }
    assert(all.take(all.len() as int) =~= all);
    out
}

/// The definitions of a source that count, in document order.
pub open spec fn counted(
    manifest: ManifestView,
    grammar: NativeGrammar,
    source: Seq<char>,
    captures: Seq<CaptureView>,
    markers: Seq<(usize, usize)>,
) -> Seq<CaptureView> {
    let ordered = without_repeats(in_order(captures));
    if manifest.test_requires_marker {
        with_markers(ordered, grammar, source, markers)
    } else {
        ordered
    }
}

/// What a grammar-backed pack extracts from a source, given the numbers of
/// its query's captures and the matches of its query.
pub open spec fn extracted_from(
    pack: PackView,
    target: Seq<char>,
    source: Seq<char>,
    grammar: NativeGrammar,
    ids: CaptureIds,
    matches: Seq<Seq<Hit>>,
) -> Result<ExtractionView, ErrorView> {
    let m = pack.manifest;
    match (
        definitions_in(matches, ids, source, m.name_syntax),
        unsupported_by(matches, ids.unsupported),
    ) {
        (Some(captures), Some(unsupported)) => {
            let nodes = forest(
                counted(m, grammar, source, captures, ranges_in(matches, ids.marker)),
            );
            Ok(
                ExtractionView {
                    nodes: pruned(actual_of(nodes)),
                    unsupported,
                    source_nodes: nodes,
                    has_parse_errors: tree_errs(grammar, source),
                },
            )
        },
        _ => Err(ErrorView::SourceParse { path: target }),
    }
}

/// What the matches of a query bind: the name and the value of each match that
/// captures both.
pub open spec fn bindings_in(
    matches: Seq<Seq<Hit>>,
    name: Option<u32>,
    value: Option<u32>,
    source: Seq<char>,
) -> Seq<(Seq<char>, Seq<char>)>
    decreases matches.len(),
{
    if matches.len() == 0 || name is None || value is None {
        Seq::empty()
    } else {
        let before = bindings_in(matches.drop_last(), name, value, source);
        match (
            text_at(hit_for(matches.last(), name->0), source),
            text_at(hit_for(matches.last(), value->0), source),
        ) {
            (Some(name), Some(value)) => before.push((name, value)),
            _ => before,
        }
    }
}

/// The text of a capture.
pub open spec fn text_at(hit: Option<(usize, usize, usize)>, source: Seq<char>) -> Option<
    Seq<char>,
> {
    match hit {
        Some((start, end, _)) => slice_between(source, start as int, end as int),
        None => None,
    }
}

fn cut(hit: Option<(usize, usize, usize)>, source: &str) -> (out: Option<String>)
    ensures
        opt_view(out) == text_at(hit, source@),
{
    match hit {
        Some((start, end, _)) => slice(source, start, end),
        None => None,
    }
}

/// What the matches of a query bind: the name and the value of each match that
/// captures both.
pub fn find_bindings(
    matches: &Vec<Vec<Hit>>,
    name: Option<u32>,
    value: Option<u32>,
    source: &str,
) -> (out: Vec<(String, String)>)
    ensures
        pair_views(out@) == bindings_in(match_views(matches@), name, value, source@),
{
    let mut out: Vec<(String, String)> = Vec::new();
    assert(pair_views(out@) =~= Seq::empty());
    if let (Some(name_number), Some(value_number)) = (name, value) {
        let ghost all = match_views(matches@);
        let mut i: usize = 0;
        assert(all.take(0) =~= Seq::empty());
        while i < matches.len()
            invariant
                i <= matches@.len(),
                all == match_views(matches@),
                name == Some(name_number),
                value == Some(value_number),
                pair_views(out@) == bindings_in(all.take(i as int), name, value, source@),
            decreases matches@.len() - i,
        {
            let ghost before = pair_views(out@);
            assert(all.take(i + 1).drop_last() =~= all.take(i as int));
            assert(all.take(i + 1).last() == matches@[i as int]@);
            let bound = cut(find_hit(&matches[i], name_number), source);
            let to = cut(find_hit(&matches[i], value_number), source);
            if let (Some(bound), Some(to)) = (bound, to) {
                let ghost added = (bound@, to@);
                out.push((bound, to));
                assert(pair_views(out@) =~= before.push(added));
            }
            i += 1;
        }
        assert(all.take(i as int) =~= all);
    }
    out
}

/// What a grammar-backed pack extracts from a source, by a query with the
/// names of functions written in.
pub open spec fn extracted_by(
    pack: PackView,
    target: Seq<char>,
    source: Seq<char>,
    grammar: NativeGrammar,
    query: Seq<char>,
) -> Result<ExtractionView, ErrorView> {
    let m = pack.manifest;
    let number = |name: Seq<char>| capture_number(grammar, query, name);
    if query_fault(grammar, query) is Some {
        Err(ErrorView::Query { pack: m.name, message: query_fault(grammar, query)->0 })
    } else {
        match ids_of(
            m.name,
            m.test_requires_marker,
            number("block"@),
            number("block.name"@),
            number("test"@),
            number("test.name"@),
            number("test.marker"@),
            number("unsupported"@),
        ) {
            Err(e) => Err(e),
            Ok(ids) => extracted_from(
                pack,
                target,
                source,
                grammar,
                ids,
                query_matches(grammar, query, source),
            ),
        }
    }
}

/// The names that a source binds to functions of a pack, as the pack's second
/// query finds them.
pub open spec fn native_aliases(
    manifest: ManifestView,
    source: Seq<char>,
    grammar: NativeGrammar,
) -> Result<Seq<(Seq<char>, Seq<char>)>, ErrorView> {
    match manifest.alias_query {
        None => Ok(Seq::empty()),
        Some(query) => match query_fault(grammar, query) {
            Some(message) => Err(ErrorView::Query { pack: manifest.name, message }),
            None => Ok(
                aliases_of(
                    bindings_in(
                        query_matches(grammar, query, source),
                        capture_number(grammar, query, "alias.name"@),
                        capture_number(grammar, query, "alias.value"@),
                        source,
                    ),
                    manifest.aliases,
                ),
            ),
        },
    }
}

/// What a grammar-backed pack extracts from a source with a grammar that is
/// compiled into the binary. The names that the source binds to functions of
/// the pack count as those functions.
pub open spec fn extracted_natively(
    pack: PackView,
    target: Seq<char>,
    source: Seq<char>,
    grammar: NativeGrammar,
) -> Result<ExtractionView, ErrorView> {
    let m = pack.manifest;
    if language_fault(grammar) is Some {
        Err(ErrorView::Language { message: language_fault(grammar)->0 })
    } else if !gives_tree(grammar, source) {
        Err(ErrorView::SourceParse { path: target })
    } else {
        match native_aliases(m, source, grammar) {
            Err(e) => Err(e),
            Ok(aliases) => extracted_by(
                pack,
                target,
                source,
                grammar,
                expanded(Dialect::Query, pack.query, m.aliases, aliases),
            ),
        }
    }
}

/// What a pack extracts from a source.
pub open spec fn extracted(pack: PackView, target: Seq<char>, source: Seq<char>) -> Result<
    ExtractionView,
    ErrorView,
> {
    let m = pack.manifest;
    match (m.source, m.lexical) {
        (GrammarSourceView::Lexical, Some(profile)) => match crate::lexical::extracted(
            profile,
            m.aliases,
            m.name_syntax,
            source,
        ) {
            Ok(found) => Ok(found),
            Err(message) => Err(ErrorView::Lexical { pack: m.name, message }),
        },
        _ => match grammar_of(pack, target) {
            Err(e) => Err(e),
            Ok(GrammarView::Wasm { .. }) => Err(ErrorView::WasmUnsupported { pack: m.name }),
            Ok(GrammarView::Native(grammar)) => extracted_natively(pack, target, source, grammar),
        },
    }
}

/// The names that a source binds to functions of a pack, as the pack's second
/// query finds them.
fn find_aliases(manifest: &Manifest, language: &Language, tree: &Tree, source: &str) -> (out: Result<
    Vec<(String, String)>,
    Error,
>)
    requires
        tree_contents(*tree) == (language_grammar(*language), source@),
    ensures
        ({
            let aliases = native_aliases(manifest@, source@, language_grammar(*language));
            match out {
                Ok(found) => aliases == Ok::<Seq<(Seq<char>, Seq<char>)>, ErrorView>(
                    pair_views(found@),
                ),
                Err(e) => aliases == Err::<Seq<(Seq<char>, Seq<char>)>, ErrorView>(e@),
            }
        }),
{
    match &manifest.extract.alias_query {
        None => {
            let none: Vec<(String, String)> = Vec::new();
            assert(pair_views(none@) =~= Seq::empty());
            Ok(none)
        },
        Some(text) => match treesitter::compile(language, text.as_str()) {
            Err(message) => Err(Error::Query { pack: manifest.pack.name.clone(), message }),
            Ok(query) => {
                let bindings = find_bindings(
                    &treesitter::matches(&query, tree, source),
                    treesitter::capture_index(&query, "alias.name"),
                    treesitter::capture_index(&query, "alias.value"),
                    source,
                );
                Ok(resolve_aliases(&bindings, &manifest.extract.aliases))
            },
        },
    }
}

fn extract_natively(pack: &Pack, target: &str, source: &str, grammar: NativeGrammar) -> (out: Result<
    Extraction,
    Error,
>)
    ensures
        match out {
            Ok(found) => extracted_natively(pack@, target@, source@, grammar) == Ok::<
                ExtractionView,
                ErrorView,
            >(found@),
            Err(e) => extracted_natively(pack@, target@, source@, grammar) == Err::<
                ExtractionView,
                ErrorView,
            >(e@),
        },
{
    let language = treesitter::language(grammar);
    let tree = match treesitter::parse(&language, source) {
        Ok(Some(tree)) => tree,
        Ok(None) => {
            return Err(Error::SourceParse { path: owned(target) });
        },
        Err(message) => {
            return Err(Error::Language { message });
        },
    };
    let aliases = find_aliases(&pack.manifest, &language, &tree, source)?;
    let named = expand(
        Dialect::Query,
        pack.query.as_str(),
        &pack.manifest.extract.aliases,
        &aliases,
    );
    let query = match treesitter::compile(&language, named.as_str()) {
        Ok(query) => query,
        Err(message) => {
            return Err(Error::Query { pack: pack.manifest.pack.name.clone(), message });
        },
    };
    let requires_marker = pack.manifest.extract.test_requires_marker;
    let ids = capture_ids(
        pack.manifest.pack.name.as_str(),
        requires_marker,
        treesitter::capture_index(&query, "block"),
        treesitter::capture_index(&query, "block.name"),
        treesitter::capture_index(&query, "test"),
        treesitter::capture_index(&query, "test.name"),
        treesitter::capture_index(&query, "test.marker"),
        treesitter::capture_index(&query, "unsupported"),
    )?;
    let matches = treesitter::matches(&query, &tree, source);
    let syntax = pack.manifest.extract.name_syntax;
    let captures = match define_all(&matches, ids, source, syntax) {
        Some(captures) => captures,
        None => {
            return Err(Error::SourceParse { path: owned(target) });
        },
    };
    let unsupported = match find_unsupported(&matches, ids.unsupported) {
        Some(unsupported) => unsupported,
        None => {
            return Err(Error::SourceParse { path: owned(target) });
        },
    };
    let ordered = order_captures(captures);
    let kept = if requires_marker {
        keep_marked(ordered, &tree, &find_ranges(&matches, ids.marker))
    } else {
        ordered
    };
    let source_nodes = nest(kept.as_slice());
    Ok(
        Extraction {
            nodes: ActualNode::prune_empty_blocks(actual_nodes(&source_nodes)),
            unsupported,
            source_nodes,
            has_parse_errors: treesitter::has_error(&tree),
        },
    )
}

/// Parse `source` with the pack's grammar, or scan it with the pack's lexical
/// profile, and return everything extracted from it.
///
/// # Errors
///
/// Fails if the pack's grammar is unavailable, its query does not compile or
/// lacks the required captures, tree-sitter cannot parse the source, or the
/// lexical scan cannot account for it.
pub fn extract_with_findings(pack: &Pack, target: &str, source: &str) -> (out: Result<
    Extraction,
    Error,
>)
    ensures
        match out {
            Ok(found) => extracted(pack@, target@, source@) == Ok::<ExtractionView, ErrorView>(
                found@,
            ),
            Err(e) => extracted(pack@, target@, source@) == Err::<ExtractionView, ErrorView>(e@),
        },
{
    if let GrammarSource::Lexical = &pack.manifest.grammar.source {
        if let Some(profile) = &pack.manifest.lexical {
            return lexical::extract(
                pack.manifest.pack.name.as_str(),
                profile,
                &pack.manifest.extract.aliases,
                pack.manifest.extract.name_syntax,
                source,
            );
        }
    }
    match grammar_for(pack, target)? {
        // No sandbox for WASM grammars is compiled into this library, so a pack
        // that ships one is refused whatever it holds.
        Grammar::Wasm { .. } => Err(
            Error::WasmUnsupported { pack: pack.manifest.pack.name.clone() },
        ),
        Grammar::Native(grammar) => extract_natively(pack, target, source, grammar),
    }
}

/// Parse `source` with the pack's grammar and return the top-level actual
/// nodes (already pruned of test-free blocks).
///
/// # Errors
///
/// Fails if the pack's grammar is unavailable, its query does not compile or
/// lacks the required captures, or tree-sitter cannot parse the source.
pub fn extract(pack: &Pack, target: &str, source: &str) -> (out: Result<Vec<ActualNode>, Error>)
    ensures
        match out {
            Ok(nodes) => extracted(pack@, target@, source@) matches Ok(found) && found.nodes
                == views(nodes@),
            Err(e) => extracted(pack@, target@, source@) == Err::<ExtractionView, ErrorView>(e@),
        },
{
    match extract_with_findings(pack, target, source) {
        Ok(found) => Ok(found.nodes),
        Err(e) => Err(e),
    }
}

/// Whether a test stands among nodes or below them.
pub open spec fn has_test(nodes: Seq<ActualView>) -> bool
    decreases nodes,
{
    exists|i: int|
        0 <= i < nodes.len() && ((#[trigger] nodes[i]).kind == ActualKind::Test || has_test(
            nodes[i].children,
        ))
}

proof fn lemma_pruned_concat(a: Seq<ActualView>, b: Seq<ActualView>)
    ensures
        pruned(a + b) == pruned(a) + pruned(b),
    decreases b.len(),
{
    if b.len() == 0 {
        assert(a + b =~= a);
        assert(pruned(a) + pruned(b) =~= pruned(a));
    } else {
        lemma_pruned_concat(a, b.drop_last());
        assert((a + b).drop_last() =~= a + b.drop_last());
        assert(pruned(a + b) =~= pruned(a) + pruned(b));
    }
}

/// Something survives pruning exactly where a test stands among the nodes or
/// below them.
proof fn lemma_pruned_by_tests(nodes: Seq<ActualView>)
    requires
        tests_hold_nothing(nodes),
    ensures
        pruned(nodes).len() > 0 <==> has_test(nodes),
    decreases nodes,
{
    if nodes.len() > 0 {
        let front = nodes.drop_last();
        let last = nodes.last();
        assert forall|i: int|
            0 <= i < front.len() && (#[trigger] front[i]).kind
                == ActualKind::Test implies front[i].children.len() == 0 by {
            assert(front[i] == nodes[i]);
        }
        assert forall|i: int| 0 <= i < front.len() implies tests_hold_nothing(
            (#[trigger] front[i]).children,
        ) by {
            assert(front[i] == nodes[i]);
        }
        assert(nodes[nodes.len() - 1] == last);
        lemma_pruned_by_tests(front);
        lemma_pruned_by_tests(last.children);
        if has_test(front) {
            let i = choose|i: int|
                0 <= i < front.len() && ((#[trigger] front[i]).kind == ActualKind::Test
                    || has_test(front[i].children));
            assert(nodes[i] == front[i]);
            assert(has_test(nodes));
        }
        if has_test(nodes) {
            let i = choose|i: int|
                0 <= i < nodes.len() && ((#[trigger] nodes[i]).kind == ActualKind::Test
                    || has_test(nodes[i].children));
            if i < front.len() {
                assert(front[i] == nodes[i]);
                assert(has_test(front));
            }
        }
    }
}

/// Whether the tests among nodes and below them hold nothing.
pub open spec fn tests_hold_nothing(nodes: Seq<ActualView>) -> bool
    decreases nodes,
{
    &&& forall|i: int|
        0 <= i < nodes.len() ==> (#[trigger] nodes[i]).kind == ActualKind::Test
            ==> nodes[i].children.len() == 0
    &&& forall|i: int| 0 <= i < nodes.len() ==> tests_hold_nothing((#[trigger] nodes[i]).children)
}

/// Pruning goes node by node: a test stays as it is, a block without a test
/// anywhere below it goes, and any other block keeps its name and line and
/// what of its children stays.
pub proof fn law_pruning_goes_node_by_node(
    before: Seq<ActualView>,
    node: ActualView,
    after: Seq<ActualView>,
)
    requires
        tests_hold_nothing(seq![node]),
    ensures
        pruned(Seq::empty()) == Seq::<ActualView>::empty(),
        pruned(before + seq![node] + after) == pruned(before) + (if node.kind == ActualKind::Test {
            seq![node]
        } else if has_test(node.children) {
            seq![
                ActualView {
                    kind: ActualKind::Block,
                    name: node.name,
                    line: node.line,
                    children: pruned(node.children),
                },
            ]
        } else {
            Seq::empty()
        }) + pruned(after),
{
    let one = seq![node];
    lemma_pruned_concat(before + one, after);
    lemma_pruned_concat(before, one);
    assert(one[0] == node);
    assert(one.drop_last() =~= Seq::empty());
    lemma_pruned_by_tests(node.children);
    assert(pruned(Seq::<ActualView>::empty()) =~= Seq::empty());
    assert(one.last() == node);
    if node.kind == ActualKind::Test {
        assert(pruned(one) =~= seq![node]);
    } else if has_test(node.children) {
        assert(pruned(one) =~= seq![
            ActualView {
                kind: ActualKind::Block,
                name: node.name,
                line: node.line,
                children: pruned(node.children),
            },
        ]);
    } else {
        assert(pruned(one) =~= Seq::empty());
    }
}

/// A raw name is the title as it stands. A name written as a literal between
/// two quotes, with `\` before every quote of the sort and before every `\`,
/// is the text between them.
pub proof fn law_names_are_titles(text: Seq<char>, quote: char)
    requires
        is_quote(quote),
    ensures
        decoded(NameSyntax::Raw, text) == text,
        decoded(NameSyntax::JsString, seq![quote] + spelled(quote, text) + seq![quote]) == text,
{
    law_quoted_text_round_trips(quote, text);
}

/// The captures of one span, in their order.
pub open spec fn of_span(s: Seq<CaptureView>, start: nat, end: nat) -> Seq<CaptureView>
    decreases s.len(),
{
    if s.len() == 0 {
        Seq::empty()
    } else if s.last().start == start && s.last().end == end {
        of_span(s.drop_last(), start, end).push(s.last())
    } else {
        of_span(s.drop_last(), start, end)
    }
}

proof fn lemma_insert_keeps(s: Seq<CaptureView>, c: CaptureView, start: nat, end: nat)
    ensures
        of_span(insert_ordered(s, c), start, end) == of_span(s.push(c), start, end),
    decreases s.len(),
{
    assert(s.push(c).drop_last() =~= s);
    if s.len() > 0 && precedes(c, s.last()) {
        let front = s.drop_last();
        lemma_insert_keeps(front, c, start, end);
        assert(front.push(c).drop_last() =~= front);
        let out = insert_ordered(s, c);
        assert(out.drop_last() =~= insert_ordered(front, c));
        assert(out.last() == s.last());
        reveal_with_fuel(of_span, 3);
        assert(s.push(c).last() == c);
    }
}

/// Whether `a` stands no later than `b` in a document: it starts before it, or
/// with it and ends no earlier.
pub open spec fn not_behind(a: CaptureView, b: CaptureView) -> bool {
    a.start < b.start || (a.start == b.start && a.end >= b.end)
}

proof fn lemma_insert_sorts(s: Seq<CaptureView>, c: CaptureView)
    requires
        forall|i: int, j: int|
            #![trigger s[i], s[j]]
            0 <= i < j < s.len() ==> not_behind(s[i], s[j]),
    ensures
        ({
            let out = insert_ordered(s, c);
            &&& out.len() == s.len() + 1
            &&& forall|i: int, j: int|
                #![trigger out[i], out[j]]
                0 <= i < j < out.len() ==> not_behind(out[i], out[j])
            &&& forall|i: int|
                0 <= i < out.len() ==> #[trigger] out[i] == c || exists|k: int|
                    0 <= k < s.len() && s[k] == out[i]
        }),
    decreases s.len(),
{
    let out = insert_ordered(s, c);
    if s.len() > 0 && precedes(c, s.last()) {
        let front = s.drop_last();
        lemma_insert_sorts(front, c);
        let inner = insert_ordered(front, c);
        assert forall|i: int| 0 <= i < out.len() implies #[trigger] out[i] == c || exists|k: int|
            0 <= k < s.len() && s[k] == out[i] by {
            if i < inner.len() {
                assert(out[i] == inner[i]);
                if inner[i] != c {
                    let k = choose|k: int| 0 <= k < front.len() && front[k] == inner[i];
                    assert(s[k] == front[k]);
                }
            } else {
                assert(out[i] == s[s.len() - 1]);
            }
        }
        assert forall|i: int, j: int|
            #![trigger out[i], out[j]]
            0 <= i < j < out.len() implies not_behind(out[i], out[j]) by {
            assert(out[i] == inner[i]);
            if j < inner.len() {
                assert(out[j] == inner[j]);
            } else {
                assert(out[j] == s.last());
                if inner[i] != c {
                    let k = choose|k: int| 0 <= k < front.len() && front[k] == inner[i];
                    assert(s[k] == front[k]);
                    assert(not_behind(s[k], s[s.len() - 1]));
                }
            }
        }
    } else {
        assert forall|i: int| 0 <= i < out.len() implies #[trigger] out[i] == c || exists|k: int|
            0 <= k < s.len() && s[k] == out[i] by {
            if i < s.len() {
                assert(out[i] == s[i]);
            }
        }
        assert forall|i: int, j: int|
            #![trigger out[i], out[j]]
            0 <= i < j < out.len() implies not_behind(out[i], out[j]) by {
            assert(out[i] == s[i]);
            if j == s.len() && i < s.len() - 1 {
                assert(not_behind(s[i], s[s.len() - 1]));
            }
            if j < s.len() {
                assert(out[j] == s[j]);
            }
        }
    }
}

/// The definitions of a file stand in document order: each starts no earlier
/// than those before it, and of two that start together the longer one comes
/// first. Those of one span are the captures of that span, all of them, in the
/// order in which they were captured.
pub proof fn law_captures_are_put_in_document_order(captures: Seq<CaptureView>)
    ensures
        in_order(captures).len() == captures.len(),
        forall|i: int, j: int|
            #![trigger in_order(captures)[i], in_order(captures)[j]]
            0 <= i < j < captures.len() ==> {
                let a = in_order(captures)[i];
                let b = in_order(captures)[j];
                a.start < b.start || (a.start == b.start && a.end >= b.end)
            },
        forall|start: nat, end: nat|
            #[trigger] of_span(in_order(captures), start, end) == of_span(captures, start, end),
    decreases captures.len(),
{
    if captures.len() > 0 {
        let front = captures.drop_last();
        let c = captures.last();
        law_captures_are_put_in_document_order(front);
        let s = in_order(front);
        assert forall|i: int, j: int|
            #![trigger s[i], s[j]]
            0 <= i < j < s.len() implies not_behind(s[i], s[j]) by {}
        lemma_insert_sorts(s, c);
        let out = insert_ordered(s, c);
        assert(out == in_order(captures));
        assert forall|i: int, j: int|
            #![trigger in_order(captures)[i], in_order(captures)[j]]
            0 <= i < j < captures.len() implies {
            let a = in_order(captures)[i];
            let b = in_order(captures)[j];
            a.start < b.start || (a.start == b.start && a.end >= b.end)
        } by {
            assert(not_behind(out[i], out[j]));
        }
        assert forall|start: nat, end: nat| #[trigger]
            of_span(in_order(captures), start, end) == of_span(captures, start, end) by {
            lemma_insert_keeps(s, c, start, end);
            assert(s.push(c).drop_last() =~= s);
            assert(of_span(s, start, end) == of_span(front, start, end));
        }
    }
}

proof fn lemma_repeats_push(s: Seq<CaptureView>, c: CaptureView)
    requires
        s.len() > 0,
    ensures
        without_repeats(s.push(c)) == if same_definition(s.last(), c) {
            without_repeats(s)
        } else {
            without_repeats(s).push(c)
        },
{
    let all = s.push(c);
    assert(all.drop_last() =~= s);
    assert(all[all.len() - 2] == s.last());
}

/// A capture of the same kind and span as the one just before it adds nothing,
/// wherever it stands and whatever it is named.
pub proof fn law_a_repeated_capture_adds_nothing(
    before: Seq<CaptureView>,
    a: CaptureView,
    b: CaptureView,
    after: Seq<CaptureView>,
)
    requires
        a.kind == b.kind,
        a.start == b.start,
        a.end == b.end,
    ensures
        without_repeats(before + seq![a, b] + after) == without_repeats(before + seq![a] + after),
    decreases after.len(),
{
    if after.len() == 0 {
        let one = before + seq![a];
        assert(before + seq![a, b] + after =~= one.push(b));
        assert(one + after =~= one);
        lemma_repeats_push(one, b);
    } else {
        let front = after.drop_last();
        let c = after.last();
        law_a_repeated_capture_adds_nothing(before, a, b, front);
        let two = before + seq![a, b] + front;
        let one = before + seq![a] + front;
        assert(before + seq![a, b] + after =~= two.push(c));
        assert(before + seq![a] + after =~= one.push(c));
        lemma_repeats_push(two, c);
        lemma_repeats_push(one, c);
        if front.len() > 0 {
            assert(two.last() == front.last());
            assert(one.last() == front.last());
        } else {
            assert(two.last() == b);
            assert(one.last() == a);
        }
    }
}

/// Where no capture repeats the kind and span of the one before it, all of
/// them stay.
pub proof fn law_captures_that_differ_all_stay(captures: Seq<CaptureView>)
    requires
        forall|i: int, j: int|
            #![trigger captures[i], captures[j]]
            0 <= i && j == i + 1 && j < captures.len() ==> captures[i].kind != captures[j].kind
                || captures[i].start != captures[j].start || captures[i].end != captures[j].end,
    ensures
        without_repeats(captures) == captures,
    decreases captures.len(),
{
    if captures.len() > 1 {
        let front = captures.drop_last();
        let c = captures.last();
        law_captures_that_differ_all_stay(front);
        assert(front.push(c) =~= captures);
        lemma_repeats_push(front, c);
        assert(captures[captures.len() - 2] == front.last());
        assert(captures[captures.len() - 1] == c);
    }
}

/// Whether the tests of a forest hold nothing.
pub open spec fn tests_are_leaves(nodes: Seq<SourceView>) -> bool
    decreases nodes,
{
    &&& forall|i: int|
        0 <= i < nodes.len() ==> (#[trigger] nodes[i]).kind == ActualKind::Test
            ==> nodes[i].children.len() == 0
    &&& forall|i: int| 0 <= i < nodes.len() ==> tests_are_leaves((#[trigger] nodes[i]).children)
}

proof fn lemma_nested_leaves(captures: Seq<CaptureView>, i: int, limit: nat)
    requires
        0 <= i <= captures.len(),
    ensures
        tests_are_leaves(nested(captures, i, limit).0),
    decreases captures.len() - i,
{
    if i < captures.len() && captures[i].start < limit {
        let c = captures[i];
        lemma_nested_moves(captures, i + 1, c.end);
        let inner = match c.kind {
            ActualKind::Block => nested(captures, i + 1, c.end),
            ActualKind::Test => (Seq::empty(), i + 1),
        };
        lemma_nested_leaves(captures, i + 1, c.end);
        lemma_nested_leaves(captures, inner.1, limit);
        let rest = nested(captures, inner.1, limit);
        let out = nested(captures, i, limit);
        assert(tests_are_leaves(inner.0));
        assert forall|k: int|
            0 <= k < out.0.len() && (#[trigger] out.0[k]).kind
                == ActualKind::Test implies out.0[k].children.len() == 0 by {
            if k > 0 {
                assert(out.0[k] == rest.0[k - 1]);
            }
        }
        assert forall|k: int| 0 <= k < out.0.len() implies tests_are_leaves(
            (#[trigger] out.0[k]).children,
        ) by {
            if k > 0 {
                assert(out.0[k] == rest.0[k - 1]);
            }
        }
    }
}

/// What stands inside a test in the source is no part of the test: only blocks
/// hold definitions.
pub proof fn law_tests_are_leaves(captures: Seq<CaptureView>)
    ensures
        tests_are_leaves(forest(captures)),
{
    lemma_nested_leaves(captures, 0, usize::MAX as nat);
}

/// The nodes of a forest are its definitions without their spans: each has
/// the kind, the name and the line of its definition and stands at the same
/// place.
pub proof fn law_nodes_are_the_definitions(nodes: Seq<SourceView>)
    ensures
        actual_of(nodes).len() == nodes.len(),
        forall|i: int|
            0 <= i < nodes.len() ==> #[trigger] actual_of(nodes)[i] == (ActualView {
                kind: nodes[i].kind,
                name: nodes[i].name,
                line: nodes[i].line,
                children: actual_of(nodes[i].children),
            }),
    decreases nodes.len(),
{
    if nodes.len() > 0 {
        let front = nodes.drop_last();
        law_nodes_are_the_definitions(front);
        assert forall|i: int| 0 <= i < nodes.len() implies #[trigger] actual_of(nodes)[i] == (
        ActualView {
            kind: nodes[i].kind,
            name: nodes[i].name,
            line: nodes[i].line,
            children: actual_of(nodes[i].children),
        }) by {
            if i < front.len() {
                assert(actual_of(nodes)[i] == actual_of(front)[i]);
                assert(front[i] == nodes[i]);
            }
        }
    }
}

/// The first capture of a number counts, and none where no capture has it.
pub proof fn law_the_first_capture_counts(hits: Seq<Hit>, number: u32, i: int)
    ensures
        (0 <= i < hits.len() && hits[i].0 == number && forall|j: int|
            0 <= j < i ==> (#[trigger] hits[j]).0 != number) ==> hit_for(hits, number) == Some(
            hits[i].1,
        ),
        (forall|j: int| 0 <= j < hits.len() ==> (#[trigger] hits[j]).0 != number) ==> hit_for(
            hits,
            number,
        ) is None,
    decreases hits.len(),
{
    if hits.len() > 0 {
        let front = hits.drop_last();
        law_the_first_capture_counts(front, number, i);
        assert(hits[hits.len() - 1] == hits.last());
        if forall|j: int| 0 <= j < hits.len() ==> (#[trigger] hits[j]).0 != number {
            assert forall|j: int| 0 <= j < front.len() implies (#[trigger] front[j]).0 != number by {
                assert(front[j] == hits[j]);
            }
        }
        if 0 <= i < hits.len() && hits[i].0 == number && forall|j: int|
            0 <= j < i ==> (#[trigger] hits[j]).0 != number {
            if i < front.len() {
                assert(front[i] == hits[i]);
                assert forall|j: int| 0 <= j < i implies (#[trigger] front[j]).0 != number by {
                    assert(front[j] == hits[j]);
                }
            } else {
                assert forall|j: int| 0 <= j < front.len() implies (#[trigger] front[j]).0
                    != number by {
                    assert(front[j] == hits[j]);
                }
            }
        }
    }
}

/// A match with a node and a name makes a definition: of the kind asked for,
/// titled by the text of the source that the name spans, on the line of the
/// node's row counted from one, and as long as the node. A match without one
/// of the two makes none.
pub proof fn law_a_match_makes_a_definition(
    hits: Seq<Hit>,
    kind: ActualKind,
    node: u32,
    name: u32,
    start: usize,
    end: usize,
    row: usize,
    named: (usize, usize, usize),
    before: Seq<char>,
    title: Seq<char>,
    after: Seq<char>,
    syntax: NameSyntax,
)
    requires
        row < usize::MAX,
        named.0 == encode_utf8(before).len(),
        named.1 == encode_utf8(before + title).len(),
    ensures
        hit_for(hits, node) == Some((start, end, row)) && hit_for(hits, name) == Some(named)
            ==> definition_in(hits, kind, node, name, before + title + after, syntax) == Some(
            seq![
                CaptureView {
                    kind,
                    name: decoded(syntax, title),
                    line: (row + 1) as nat,
                    start: start as nat,
                    end: end as nat,
                },
            ],
        ),
        hit_for(hits, node) is None || hit_for(hits, name) is None ==> definition_in(
            hits,
            kind,
            node,
            name,
            before + title + after,
            syntax,
        ) == Some(Seq::<CaptureView>::empty()),
{
    law_offsets_give_the_part_back(before, title, after);
}

proof fn lemma_definitions_in_concat(
    a: Seq<Seq<Hit>>,
    b: Seq<Seq<Hit>>,
    ids: CaptureIds,
    source: Seq<char>,
    syntax: NameSyntax,
)
    ensures
        ({
            let first = definitions_in(a, ids, source, syntax);
            let second = definitions_in(b, ids, source, syntax);
            let both = definitions_in(a + b, ids, source, syntax);
            if first is Some && second is Some {
                both == Some(first->0 + second->0)
            } else {
                both is None
            }
        }),
    decreases b.len(),
{
    if b.len() == 0 {
        assert(a + b =~= a);
        if let Some(first) = definitions_in(a, ids, source, syntax) {
            assert(first + Seq::<CaptureView>::empty() =~= first);
        }
    } else {
        let front = b.drop_last();
        let hits = b.last();
        lemma_definitions_in_concat(a, front, ids, source, syntax);
        assert((a + b).drop_last() =~= a + front);
        assert((a + b).last() == hits);
        let block = definition_in(hits, ActualKind::Block, ids.block, ids.block_name, source, syntax);
        let test = definition_in(hits, ActualKind::Test, ids.test, ids.test_name, source, syntax);
        let first = definitions_in(a, ids, source, syntax);
        let middle = definitions_in(front, ids, source, syntax);
        if first is Some && middle is Some && block is Some && test is Some {
            assert((first->0 + middle->0) + block->0 + test->0 =~= first->0 + (middle->0 + block->0
                + test->0));
        }
    }
}

/// The definitions of a source come match by match: a match adds the block
/// that its `@block` and `@block.name` make and then the test that its `@test`
/// and `@test.name` make. Where one of them does not fit the source, nothing
/// is defined.
pub proof fn law_definitions_come_match_by_match(
    before: Seq<Seq<Hit>>,
    hits: Seq<Hit>,
    after: Seq<Seq<Hit>>,
    ids: CaptureIds,
    source: Seq<char>,
    syntax: NameSyntax,
)
    ensures
        definitions_in(Seq::empty(), ids, source, syntax) == Some(Seq::<CaptureView>::empty()),
        ({
            let first = definitions_in(before, ids, source, syntax);
            let block = definition_in(
                hits,
                ActualKind::Block,
                ids.block,
                ids.block_name,
                source,
                syntax,
            );
            let test = definition_in(hits, ActualKind::Test, ids.test, ids.test_name, source, syntax);
            let rest = definitions_in(after, ids, source, syntax);
            let all = definitions_in(before + seq![hits] + after, ids, source, syntax);
            if first is Some && block is Some && test is Some && rest is Some {
                all == Some(first->0 + block->0 + test->0 + rest->0)
            } else {
                all is None
            }
        }),
{
    let one = seq![hits];
    lemma_definitions_in_concat(before + one, after, ids, source, syntax);
    assert((before + one).drop_last() =~= before);
    assert((before + one).last() == hits);
}

/// The unsupported constructs come match by match: a match that captures one
/// adds it, on the line of its row counted from one.
pub proof fn law_constructs_come_match_by_match(
    matches: Seq<Seq<Hit>>,
    hits: Seq<Hit>,
    number: u32,
    start: usize,
    end: usize,
    row: usize,
)
    requires
        row < usize::MAX,
        constructs_in(matches, Some(number)) is Some,
    ensures
        constructs_in(Seq::empty(), Some(number)) == Some(Seq::<CaptureView>::empty()),
        constructs_in(matches, None) == Some(Seq::<CaptureView>::empty()),
        hit_for(hits, number) is None ==> constructs_in(matches.push(hits), Some(number))
            == constructs_in(matches, Some(number)),
        hit_for(hits, number) == Some((start, end, row)) ==> constructs_in(
            matches.push(hits),
            Some(number),
        ) == Some(
            constructs_in(matches, Some(number))->0.push(
                CaptureView {
                    kind: ActualKind::Block,
                    name: Seq::empty(),
                    line: (row + 1) as nat,
                    start: start as nat,
                    end: end as nat,
                },
            ),
        ),
{
    assert(matches.push(hits).drop_last() =~= matches);
}

/// The unsupported lines of a file are those of its constructs, in document
/// order and each construct once.
pub proof fn law_unsupported_lines_are_those_of_the_constructs(
    matches: Seq<Seq<Hit>>,
    index: Option<u32>,
)
    requires
        constructs_in(matches, index) is Some,
    ensures
        ({
            let found = without_repeats(in_order(constructs_in(matches, index)->0));
            &&& unsupported_by(matches, index) is Some
            &&& unsupported_by(matches, index)->0.len() == found.len()
            &&& forall|i: int|
                0 <= i < found.len() ==> (#[trigger] unsupported_by(matches, index)->0[i]).line
                    == found[i].line
        }),
{
}

/// The markers come match by match: a match that captures one adds its span.
pub proof fn law_markers_come_match_by_match(
    matches: Seq<Seq<Hit>>,
    hits: Seq<Hit>,
    number: u32,
)
    ensures
        ranges_in(Seq::empty(), Some(number)) == Seq::<(usize, usize)>::empty(),
        ranges_in(matches, None) == Seq::<(usize, usize)>::empty(),
        ranges_in(matches.push(hits), Some(number)) == match hit_for(hits, number) {
            Some((start, end, row)) => ranges_in(matches, Some(number)).push((start, end)),
            None => ranges_in(matches, Some(number)),
        },
{
    assert(matches.push(hits).drop_last() =~= matches);
}

/// A definition is the outermost node of its range: going up from the smallest
/// node that spans the range, every level passed has the range, and the next
/// one, if there is one, has not.
pub proof fn law_the_outermost_node_of_a_range(
    chain: Seq<(usize, usize)>,
    start: usize,
    end: usize,
    at: int,
)
    requires
        0 <= at < chain.len(),
    ensures
        ({
            let up = levels_up(chain, start, end, at);
            &&& at <= up < chain.len()
            &&& forall|k: int| at < k <= up ==> #[trigger] chain[k] == (start, end)
            &&& up + 1 < chain.len() ==> chain[up + 1] != (start, end)
        }),
    decreases chain.len() - at,
{
    if at + 1 < chain.len() && chain[at + 1] == (start, end) {
        law_the_outermost_node_of_a_range(chain, start, end, at + 1);
    }
}

/// Whether siblings up to `k` are all comments and attributes.
pub open spec fn only_passed(siblings: Seq<(usize, usize, Seq<char>)>, at: int, k: int) -> bool {
    forall|j: int|
        at <= j < k ==> has_part((#[trigger] siblings[j]).2, "comment"@) || has_part(
            siblings[j].2,
            "attribute"@,
        )
}

/// A test has a marker exactly where one stands before it with nothing between
/// the two but comments and attributes.
pub proof fn law_a_marker_stands_before_its_test(
    siblings: Seq<(usize, usize, Seq<char>)>,
    markers: Seq<(usize, usize)>,
    at: int,
)
    requires
        0 <= at,
    ensures
        marked_from(siblings, markers, at) <==> exists|k: int|
            at <= k < siblings.len() && markers.contains(
                ((#[trigger] siblings[k]).0, siblings[k].1),
            ) && only_passed(siblings, at, k),
    decreases siblings.len() - at,
{
    if at < siblings.len() {
        law_a_marker_stands_before_its_test(siblings, markers, at + 1);
        let here = siblings[at];
        let passed = has_part(here.2, "comment"@) || has_part(here.2, "attribute"@);
        if markers.contains((here.0, here.1)) {
            assert(only_passed(siblings, at, at));
        } else {
            if marked_from(siblings, markers, at) {
                let k = choose|k: int|
                    at + 1 <= k < siblings.len() && markers.contains(
                        ((#[trigger] siblings[k]).0, siblings[k].1),
                    ) && only_passed(siblings, at + 1, k);
                assert(only_passed(siblings, at, k));
            }
            if exists|k: int|
                at <= k < siblings.len() && markers.contains(
                    ((#[trigger] siblings[k]).0, siblings[k].1),
                ) && only_passed(siblings, at, k) {
                let k = choose|k: int|
                    at <= k < siblings.len() && markers.contains(
                        ((#[trigger] siblings[k]).0, siblings[k].1),
                    ) && only_passed(siblings, at, k);
                assert(k > at);
                assert(only_passed(siblings, at + 1, k));
                assert(passed);
            }
        }
    }
}

/// Where tests need a marker, the blocks and the marked tests count, in their
/// order, and nothing else.
pub proof fn law_unmarked_tests_do_not_count(
    captures: Seq<CaptureView>,
    c: CaptureView,
    grammar: NativeGrammar,
    source: Seq<char>,
    markers: Seq<(usize, usize)>,
)
    ensures
        with_markers(Seq::empty(), grammar, source, markers) == Seq::<CaptureView>::empty(),
        with_markers(captures.push(c), grammar, source, markers) == if c.kind == ActualKind::Test
            && !has_marker(grammar, source, c.start as usize, c.end as usize, markers) {
            with_markers(captures, grammar, source, markers)
        } else {
            with_markers(captures, grammar, source, markers).push(c)
        },
{
    assert(captures.push(c).drop_last() =~= captures);
}

/// The bindings of a source come match by match: a match that captures a name
/// and a value adds the two texts.
pub proof fn law_bindings_come_match_by_match(
    matches: Seq<Seq<Hit>>,
    hits: Seq<Hit>,
    name: u32,
    value: u32,
    source: Seq<char>,
)
    ensures
        bindings_in(Seq::empty(), Some(name), Some(value), source) == Seq::<
            (Seq<char>, Seq<char>),
        >::empty(),
        bindings_in(matches.push(hits), Some(name), Some(value), source) == match (
            text_at(hit_for(hits, name), source),
            text_at(hit_for(hits, value), source),
        ) {
            (Some(name_text), Some(value_text)) => bindings_in(
                matches,
                Some(name),
                Some(value),
                source,
            ).push((name_text, value_text)),
            _ => bindings_in(matches, Some(name), Some(value), source),
        },
{
    assert(matches.push(hits).drop_last() =~= matches);
}

/// The tests among captures, in their order, each by name and line.
pub open spec fn tests_in(captures: Seq<CaptureView>) -> Seq<(Seq<char>, nat)>
    decreases captures.len(),
{
    if captures.len() == 0 {
        Seq::empty()
    } else if captures.last().kind == ActualKind::Test {
        tests_in(captures.drop_last()).push((captures.last().name, captures.last().line))
    } else {
        tests_in(captures.drop_last())
    }
}

proof fn lemma_tests_in_concat(a: Seq<CaptureView>, b: Seq<CaptureView>)
    ensures
        tests_in(a + b) == tests_in(a) + tests_in(b),
    decreases b.len(),
{
    if b.len() == 0 {
        assert(a + b =~= a);
        assert(tests_in(a) + tests_in(b) =~= tests_in(a));
    } else {
        lemma_tests_in_concat(a, b.drop_last());
        assert((a + b).drop_last() =~= a + b.drop_last());
        assert(tests_in(a + b) =~= tests_in(a) + tests_in(b));
    }
}

proof fn lemma_tests_of_definitions(nodes: Seq<SourceView>)
    requires
        tests_are_leaves(nodes),
    ensures
        tests_of(actual_of(nodes)) == tests_in(definitions(nodes)),
    decreases nodes,
{
    if nodes.len() > 0 {
        let front = nodes.drop_last();
        let last = nodes.last();
        assert(nodes[nodes.len() - 1] == last);
        assert(forall|i: int| 0 <= i < front.len() ==> #[trigger] front[i] == nodes[i]);
        lemma_tests_of_definitions(front);
        lemma_tests_of_definitions(last.children);
        let c = CaptureView {
            kind: last.kind,
            name: last.name,
            line: last.line,
            start: last.start,
            end: last.end,
        };
        lemma_tests_in_concat(definitions(front).push(c), definitions(last.children));
        assert(definitions(front).push(c).drop_last() =~= definitions(front));
        assert(actual_of(nodes).drop_last() =~= actual_of(front));
        if last.kind == ActualKind::Test {
            assert(definitions(last.children) =~= Seq::empty());
            assert(tests_in(definitions(last.children)) =~= Seq::empty());
        }
        assert(tests_of(actual_of(nodes)) =~= tests_in(definitions(nodes)));
    } else {
        assert(tests_of(actual_of(nodes)) =~= tests_in(definitions(nodes)));
    }
}

/// Extraction loses no test and invents none, whatever the pack: the tests of
/// its structure are those of its definitions, in document order, each with
/// its title and line, and no block of the structure is without one.
pub proof fn law_extraction_keeps_every_test(
    pack: PackView,
    target: Seq<char>,
    source: Seq<char>,
    found: ExtractionView,
)
    requires
        extracted(pack, target, source) == Ok::<ExtractionView, ErrorView>(found),
    ensures
        tests_of(found.nodes) == tests_in(definitions(found.source_nodes)),
        no_empty_blocks(found.nodes),
        tests_are_leaves(found.source_nodes),
{
    let nodes = found.source_nodes;
    law_pruning_keeps_the_tests(actual_of(nodes));
    let m = pack.manifest;
    match (m.source, m.lexical) {
        (GrammarSourceView::Lexical, Some(profile)) => {
            crate::lexical::lemma_lexical_structure(profile, m.aliases, m.name_syntax, source);
        },
        _ => {
            match grammar_of(pack, target) {
                Ok(GrammarView::Native(grammar)) => {
                    lemma_native_structure(pack, target, source, grammar);
                },
                _ => {},
            }
        },
    }
    lemma_tests_of_definitions(nodes);
}

proof fn lemma_native_structure(
    pack: PackView,
    target: Seq<char>,
    source: Seq<char>,
    grammar: NativeGrammar,
)
    ensures
        extracted_natively(pack, target, source, grammar) matches Ok(found) ==> found.nodes
            == pruned(actual_of(found.source_nodes)) && tests_are_leaves(found.source_nodes),
{
    match extracted_natively(pack, target, source, grammar) {
        Ok(found) => {
            let m = pack.manifest;
            let aliases = native_aliases(m, source, grammar)->Ok_0;
            let query = expanded(Dialect::Query, pack.query, m.aliases, aliases);
            let matches = query_matches(grammar, query, source);
            let ids = ids_of(
                m.name,
                m.test_requires_marker,
                capture_number(grammar, query, "block"@),
                capture_number(grammar, query, "block.name"@),
                capture_number(grammar, query, "test"@),
                capture_number(grammar, query, "test.name"@),
                capture_number(grammar, query, "test.marker"@),
                capture_number(grammar, query, "unsupported"@),
            )->Ok_0;
            assert(extracted_from(pack, target, source, grammar, ids, matches) is Ok);
            let captures = definitions_in(matches, ids, source, m.name_syntax)->0;
            law_tests_are_leaves(
                counted(m, grammar, source, captures, ranges_in(matches, ids.marker)),
            );
        },
        Err(_) => {},
    }
}

/// A query is usable exactly where it captures blocks and tests with their
/// names, and markers where tests need one.
pub proof fn law_queries_need_their_captures(
    pack: Seq<char>,
    requires_marker: bool,
    block: Option<u32>,
    block_name: Option<u32>,
    test: Option<u32>,
    test_name: Option<u32>,
    marker: Option<u32>,
    unsupported: Option<u32>,
)
    ensures
        ({
            let ids = ids_of(
                pack,
                requires_marker,
                block,
                block_name,
                test,
                test_name,
                marker,
                unsupported,
            );
            let named = block is Some && block_name is Some && test is Some && test_name is Some;
            &&& ids is Ok <==> named && (requires_marker ==> marker is Some)
            &&& ids matches Ok(found) ==> Some(found.block) == block && Some(found.block_name)
                == block_name && Some(found.test) == test && Some(found.test_name) == test_name
                && found.marker == marker && found.unsupported == unsupported
            &&& !named ==> ids == Err::<CaptureIds, ErrorView>(ErrorView::MissingCaptures { pack })
            &&& named && requires_marker && marker is None ==> ids == Err::<CaptureIds, ErrorView>(
                ErrorView::MissingMarkerCapture { pack },
            )
        }),
{
}

/// A pack with a lexical profile is extracted from by that; a pack whose grammar
/// is compiled in by its grammar; and a pack that ships its grammar is refused.
pub proof fn law_packs_extract_by_their_grammar(
    pack: PackView,
    target: Seq<char>,
    source: Seq<char>,
)
    ensures
        pack.manifest.source is Lexical && pack.manifest.lexical is Some ==> match (
            extracted(pack, target, source),
            crate::lexical::extracted(
                pack.manifest.lexical->0,
                pack.manifest.aliases,
                pack.manifest.name_syntax,
                source,
            ),
        ) {
            (Ok(a), Ok(b)) => a == b,
            (Err(e), Err(message)) => e == (ErrorView::Lexical {
                pack: pack.manifest.name,
                message,
            }),
            _ => false,
        },
        pack.manifest.source is Wasm && pack.wasm_grammar is Some ==> extracted(
            pack,
            target,
            source,
        ) == Err::<ExtractionView, ErrorView>(
            ErrorView::WasmUnsupported { pack: pack.manifest.name },
        ),
        pack.manifest.source == GrammarSourceView::Builtin("rust"@) ==> extracted(
            pack,
            target,
            source,
        ) == extracted_natively(pack, target, source, NativeGrammar::Rust),
{
}

/// What a grammar-backed pack extracts from the matches of its query: the
/// definitions in document order, each once, and of the tests only the marked
/// ones where they need a marker; the lines of what is unsupported; and whether
/// the grammar found syntax errors.
pub proof fn law_matches_become_an_extraction(
    pack: PackView,
    target: Seq<char>,
    source: Seq<char>,
    grammar: NativeGrammar,
    ids: CaptureIds,
    matches: Seq<Seq<Hit>>,
    captures: Seq<CaptureView>,
    unsupported: Seq<UnsupportedView>,
)
    requires
        definitions_in(matches, ids, source, pack.manifest.name_syntax) == Some(captures),
        unsupported_by(matches, ids.unsupported) == Some(unsupported),
    ensures
        extracted_from(pack, target, source, grammar, ids, matches) matches Ok(found) && {
            let ordered = without_repeats(in_order(captures));
            &&& found.source_nodes == forest(
                if pack.manifest.test_requires_marker {
                    with_markers(ordered, grammar, source, ranges_in(matches, ids.marker))
                } else {
                    ordered
                },
            )
            &&& found.nodes == pruned(actual_of(found.source_nodes))
            &&& found.unsupported == unsupported
            &&& found.has_parse_errors == tree_errs(grammar, source)
        },
{
}

/// The captures of a query are known by their names.
pub proof fn law_captures_are_known_by_name(
    pack: PackView,
    target: Seq<char>,
    source: Seq<char>,
    grammar: NativeGrammar,
    query: Seq<char>,
    ids: CaptureIds,
)
    requires
        query_fault(grammar, query) is None,
        capture_number(grammar, query, "block"@) == Some(ids.block),
        capture_number(grammar, query, "block.name"@) == Some(ids.block_name),
        capture_number(grammar, query, "test"@) == Some(ids.test),
        capture_number(grammar, query, "test.name"@) == Some(ids.test_name),
        capture_number(grammar, query, "test.marker"@) == ids.marker,
        capture_number(grammar, query, "unsupported"@) == ids.unsupported,
        pack.manifest.test_requires_marker ==> ids.marker is Some,
    ensures
        extracted_by(pack, target, source, grammar, query) == extracted_from(
            pack,
            target,
            source,
            grammar,
            ids,
            query_matches(grammar, query, source),
        ),
{
    let m = pack.manifest;
    let found = ids_of(
        m.name,
        m.test_requires_marker,
        capture_number(grammar, query, "block"@),
        capture_number(grammar, query, "block.name"@),
        capture_number(grammar, query, "test"@),
        capture_number(grammar, query, "test.name"@),
        capture_number(grammar, query, "test.marker"@),
        capture_number(grammar, query, "unsupported"@),
    );
    assert(found == Ok::<CaptureIds, ErrorView>(ids));
}

} // verus!
