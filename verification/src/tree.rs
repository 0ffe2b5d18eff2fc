//! Parser for bulloak-style `.tree` specification files.
//!
//! A tree file contains one or more trees. Each tree starts with a root line
//! (the name of the thing under test), followed by branch lines drawn with
//! box characters:
//!
//! ```text
//! HashMap
//! ├── when the key is present
//! │   ├── it returns the value
//! │   └── when the value was overwritten
//! │       └── it returns the latest value
//! └── when the key is absent
//!     └── it returns none
//! ```
//!
//! Nodes starting with `when` or `given` (in any case) are conditions
//! (branches); nodes starting with `it` are actions (leaves). Multiple trees
//! in one file are separated by blank lines.

use vstd::prelude::*;
use crate::text::{
    chars_of, concat3, count_text, debug, is_empty, lines, owned, starts_with, strip_prefix,
    text_between, to_lower, trim, trim_end, trim_start,
};

verus! {

broadcast use vstd::string::group_string_axioms;

use crate::text::{
    all_white, ascii_lower, debug_of, decimal_of, is_ascii_text, is_white,
    law_trimming_gives_the_text_back, law_trimming_takes_white_space_off, lemma_end_off,
    lemma_end_parts, lemma_lines_join, lemma_one_line, lemma_start_off, lemma_start_parts,
    lower_text, margins, stands_free, text_lines, trimmed, trimmed_end, trimmed_start, views,
};

/// Why a `.tree` file failed to parse.
#[derive(Debug, Clone, PartialEq, Eq)]
#[non_exhaustive]
pub enum ParseError {
    /// A branch line appeared before any root line.
    BranchBeforeRoot {
        /// 1-based line number.
        line: usize,
    },
    /// An `it` node was given children.
    ActionWithChildren {
        /// 1-based line number of the child.
        line: usize,
        /// 1-based line number of the offending `it` parent.
        parent_line: usize,
    },
    /// A node is indented more than one level past its parent.
    DepthJump {
        /// 1-based line number.
        line: usize,
        /// Depth of the deepest open node.
        from: usize,
        /// Depth the line claimed.
        to: usize,
    },
    /// A node does not start with `when`, `given`, or `it`.
    UnknownKeyword {
        /// 1-based line number.
        line: usize,
        /// The offending node text.
        text: String,
    },
    /// A line's box-drawing prefix is not well formed.
    MalformedPrefix {
        /// 1-based line number.
        line: usize,
        /// The full offending line.
        text: String,
    },
    /// The file contains no trees at all.
    Empty,
}

/// The model of a [`ParseError`].
pub enum ParseErrorView {
    BranchBeforeRoot { line: nat },
    ActionWithChildren { line: nat, parent_line: nat },
    DepthJump { line: nat, from: nat, to: nat },
    UnknownKeyword { line: nat, text: Seq<char> },
    MalformedPrefix { line: nat, text: Seq<char> },
    Empty,
}

impl View for ParseError {
    type V = ParseErrorView;

    open spec fn view(&self) -> ParseErrorView {
        match *self {
            ParseError::BranchBeforeRoot { line } => ParseErrorView::BranchBeforeRoot {
                line: line as nat,
            },
            ParseError::ActionWithChildren { line, parent_line } => {
                ParseErrorView::ActionWithChildren {
                    line: line as nat,
                    parent_line: parent_line as nat,
                }
            },
            ParseError::DepthJump { line, from, to } => ParseErrorView::DepthJump {
                line: line as nat,
                from: from as nat,
                to: to as nat,
            },
            ParseError::UnknownKeyword { line, text } => ParseErrorView::UnknownKeyword {
                line: line as nat,
                text: text@,
            },
            ParseError::MalformedPrefix { line, text } => ParseErrorView::MalformedPrefix {
                line: line as nat,
                text: text@,
            },
            ParseError::Empty => ParseErrorView::Empty,
        }
    }
}

/// Whether a spec node is a branch or a leaf.
#[derive(Debug, Clone, Copy, PartialEq, Eq, Structural)]
pub enum NodeKind {
    /// A `when …` / `given …` branch.
    Condition,
    /// An `it …` leaf describing one assertion.
    Action,
}

/// One node of a parsed spec tree.
#[derive(Debug)]
pub struct SpecNode {
    /// Branch or leaf.
    pub kind: NodeKind,
    /// Full node text, e.g. "when the key is present" or "it returns none".
    pub text: String,
    /// 1-based line number in the `.tree` file.
    pub line: usize,
    /// Child nodes (always empty for actions).
    pub children: Vec<SpecNode>,
}

/// One tree from a `.tree` file.
#[derive(Debug, Clone)]
pub struct SpecTree {
    /// Root line text, e.g. `HashMap`.
    pub root: String,
    /// 1-based line number of the root line.
    pub line: usize,
    /// Top-level nodes under the root.
    pub children: Vec<SpecNode>,
}

/// The model of a [`SpecNode`].
pub struct SpecNodeView {
    pub kind: NodeKind,
    pub text: Seq<char>,
    pub line: nat,
    pub children: Seq<SpecNodeView>,
}

/// The model of a [`SpecTree`].
pub struct SpecTreeView {
    pub root: Seq<char>,
    pub line: nat,
    pub children: Seq<SpecNodeView>,
}

pub open spec fn node_view(node: SpecNode) -> SpecNodeView
    decreases node,
{
    SpecNodeView {
        kind: node.kind,
        text: node.text@,
        line: node.line as nat,
        children: Seq::new(
            node.children@.len(),
            |i: int|
                if 0 <= i < node.children@.len() {
                    node_view(node.children@[i])
                } else {
                    arbitrary()
                },
        ),
    }
}

impl View for SpecNode {
    type V = SpecNodeView;

    open spec fn view(&self) -> SpecNodeView {
        node_view(*self)
    }
}

impl View for SpecTree {
    type V = SpecTreeView;

    open spec fn view(&self) -> SpecTreeView {
        SpecTreeView { root: self.root@, line: self.line as nat, children: views(self.children@) }
    }
}

/// The children of a node's model are the models of its children.
pub broadcast proof fn lemma_node_children(node: SpecNode)
    ensures
        #[trigger] node_view(node).children == views(node.children@),
{
    assert(node_view(node).children =~= views(node.children@));
}

impl Clone for SpecNode {
    fn clone(&self) -> (out: Self)
        ensures
            out@ == self@,
        decreases self,
    {
        let mut children: Vec<SpecNode> = Vec::new();
        let mut i: usize = 0;
        while i < self.children.len()
            invariant
                i <= self.children@.len(),
                views(children@) == views(self.children@).take(i as int),
            decreases self.children@.len() - i,
        {
            let ghost before = views(children@);
            let child = self.children[i].clone();
            children.push(child);
            i += 1;
            assert(views(children@) =~= before.push(child@));
            assert(views(self.children@).take(i as int) =~= before.push(views(self.children@)[i - 1]));
        }
        assert(views(self.children@).take(i as int) =~= views(self.children@));
        let out = SpecNode { kind: self.kind, text: self.text.clone(), line: self.line, children };
        proof {
            lemma_node_children(*self);
            lemma_node_children(out);
        }
        out
    }
}

/// The text after a prefix marker and the spaces that fill its four-column
/// group; at the end of a line the group may be cut short.
pub open spec fn group_rest(s: Seq<char>, marker: Seq<char>) -> Option<Seq<char>> {
    let rest = s.skip(marker.len() as int);
    let pad = if marker.len() < 4 {
        4 - marker.len()
    } else {
        0
    };
    if !marker.is_prefix_of(s) {
        None
    } else if rest.len() == 0 {
        Some(rest)
    } else if rest.len() >= pad && forall|i: int| 0 <= i < pad ==> rest[i] == ' ' {
        Some(rest.skip(pad))
    } else {
        None
    }
}

/// The text after a connector group: `├── ` or `└── `.
pub open spec fn connector_rest(s: Seq<char>) -> Option<Seq<char>> {
    match group_rest(s, "├──"@) {
        Some(rest) => Some(rest),
        None => group_rest(s, "└──"@),
    }
}

/// The text after a group that continues the levels above: `│   ` or four
/// spaces.
pub open spec fn level_rest(s: Seq<char>) -> Option<Seq<char>> {
    match group_rest(s, "│"@) {
        Some(rest) => Some(rest),
        None => if "    "@.is_prefix_of(s) {
            Some(s.skip(4))
        } else {
            None
        },
    }
}

/// Where a line stands after `above` level groups: its depth and its text.
/// Depth 0 is a root line; a line with level groups but no connector has
/// no place.
pub open spec fn placed_after(s: Seq<char>, above: nat) -> Option<(nat, Seq<char>)>
    decreases s.len(),
{
    match connector_rest(s) {
        Some(rest) => Some((above + 1, trimmed(rest))),
        None => match level_rest(s) {
            Some(rest) => if rest.len() < s.len() {
                placed_after(rest, above + 1)
            } else {
                None
            },
            None => if above == 0 {
                Some((0, trimmed(s)))
            } else {
                None
            },
        },
    }
}

/// The kind of the node whose text has the lower-case form `lower`.
pub open spec fn kind_of_lower(lower: Seq<char>) -> Option<NodeKind> {
    if "when "@.is_prefix_of(lower) || "given "@.is_prefix_of(lower) {
        Some(NodeKind::Condition)
    } else if lower == "it"@ || "it "@.is_prefix_of(lower) {
        Some(NodeKind::Action)
    } else {
        None
    }
}

/// The kind of a node, by the keyword its text starts with.
pub open spec fn kind_of(text: Seq<char>) -> Option<NodeKind> {
    kind_of_lower(lower_text(text))
}

/// What one line of a tree file is.
pub enum Entry {
    /// Nothing but white space.
    Blank,
    /// A `//` comment.
    Comment,
    /// A root line (depth 0) or a branch.
    Node { depth: nat, text: Seq<char> },
    /// A line whose prefix is not well formed.
    Malformed { text: Seq<char> },
}

/// What one line of a tree file is.
pub open spec fn entry_of(raw: Seq<char>) -> Entry {
    let text = trimmed_end(raw);
    if text.len() == 0 {
        Entry::Blank
    } else if "//"@.is_prefix_of(trimmed_start(text)) {
        Entry::Comment
    } else {
        match placed_after(text, 0) {
            Some((depth, text)) => Entry::Node { depth, text },
            None => Entry::Malformed { text },
        }
    }
}

/// The nodes with `node` added at `depth` below the last node of each level
/// above it.
pub open spec fn add_at(nodes: Seq<SpecNodeView>, depth: nat, node: SpecNodeView) -> Seq<
    SpecNodeView,
>
    decreases depth,
{
    if depth <= 1 || nodes.len() == 0 {
        nodes.push(node)
    } else {
        let last = nodes.last();
        nodes.drop_last().push(
            SpecNodeView {
                children: add_at(last.children, (depth - 1) as nat, node),
                ..last
            },
        )
    }
}

/// What has been read so far: the trees, and the kind and line of the open
/// node of each depth, outermost first.
pub struct Progress {
    pub trees: Seq<SpecTreeView>,
    pub open: Seq<(NodeKind, nat)>,
}

/// What has been read after one more line.
pub open spec fn read_line(before: Progress, line: nat, raw: Seq<char>) -> Result<
    Progress,
    ParseErrorView,
> {
    match entry_of(raw) {
        Entry::Blank => Ok(Progress { open: Seq::empty(), ..before }),
        Entry::Comment => Ok(before),
        Entry::Malformed { text } => Err(ParseErrorView::MalformedPrefix { line, text }),
        Entry::Node { depth, text } => if depth == 0 {
            Ok(
                Progress {
                    trees: before.trees.push(
                        SpecTreeView { root: text, line, children: Seq::empty() },
                    ),
                    open: Seq::empty(),
                },
            )
        } else if before.trees.len() == 0 {
            Err(ParseErrorView::BranchBeforeRoot { line })
        } else {
            match kind_of(text) {
                None => Err(ParseErrorView::UnknownKeyword { line, text }),
                Some(kind) => if depth > before.open.len() + 1 {
                    Err(
                        ParseErrorView::DepthJump { line, from: before.open.len(), to: depth },
                    )
                } else if depth > 1 && before.open[depth - 2].0 == NodeKind::Action {
                    Err(
                        ParseErrorView::ActionWithChildren {
                            line,
                            parent_line: before.open[depth - 2].1,
                        },
                    )
                } else {
                    let node = SpecNodeView { kind, text, line, children: Seq::empty() };
                    let tree = before.trees.last();
                    Ok(
                        Progress {
                            trees: before.trees.drop_last().push(
                                SpecTreeView {
                                    children: add_at(tree.children, depth, node),
                                    ..tree
                                },
                            ),
                            open: before.open.take(depth - 1).push((kind, line)),
                        },
                    )
                },
            }
        },
    }
}

/// What the lines of a file read to, or the error of the first line that
/// has one.
pub open spec fn read_lines(lines: Seq<Seq<char>>) -> Result<Progress, ParseErrorView>
    decreases lines.len(),
{
    if lines.len() == 0 {
        Ok(Progress { trees: Seq::empty(), open: Seq::empty() })
    } else {
        match read_lines(lines.drop_last()) {
            Ok(before) => read_line(before, lines.len(), lines.last()),
            Err(e) => Err(e),
        }
    }
}

/// The trees of a tree file.
pub open spec fn parsed(source: Seq<char>) -> Result<Seq<SpecTreeView>, ParseErrorView> {
    match read_lines(text_lines(source)) {
        Err(e) => Err(e),
        Ok(read) => if read.trees.len() == 0 {
            Err(ParseErrorView::Empty)
        } else {
            Ok(read.trees)
        },
    }
}

/// Whether there is a last node on each of the first `depth` levels.
pub open spec fn has_spine(nodes: Seq<SpecNodeView>, depth: nat) -> bool
    decreases depth,
{
    depth == 0 || (nodes.len() > 0 && has_spine(nodes.last().children, (depth - 1) as nat))
}

proof fn lemma_spine_shorter(nodes: Seq<SpecNodeView>, long: nat, short: nat)
    requires
        has_spine(nodes, long),
        short <= long,
    ensures
        has_spine(nodes, short),
    decreases long,
{
    if short > 0 {
        lemma_spine_shorter(nodes.last().children, (long - 1) as nat, (short - 1) as nat);
    }
}

proof fn lemma_spine_added(nodes: Seq<SpecNodeView>, depth: nat, node: SpecNodeView)
    requires
        depth >= 1,
        has_spine(nodes, (depth - 1) as nat),
    ensures
        has_spine(add_at(nodes, depth, node), depth),
    decreases depth,
{
    if depth == 1 {
        assert(has_spine(add_at(nodes, depth, node).last().children, 0));
    } else {
        lemma_spine_added(nodes.last().children, (depth - 1) as nat, node);
    }
}

proof fn lemma_read_lines_stop(lines: Seq<Seq<char>>, n: int)
    requires
        0 <= n <= lines.len(),
        read_lines(lines.take(n)) is Err,
    ensures
        read_lines(lines) == read_lines(lines.take(n)),
    decreases lines.len() - n,
{
    if n < lines.len() {
        assert(lines.take(n + 1).drop_last() =~= lines.take(n));
        lemma_read_lines_stop(lines, n + 1);
    } else {
        assert(lines.take(n) =~= lines);
    }
}

/// Strip a prefix marker plus enough spaces to fill its 4-column group.
fn strip_group(s: &str, marker: &str) -> (out: Option<String>)
    ensures
        match out {
            Some(rest) => group_rest(s@, marker@) == Some(rest@),
            None => group_rest(s@, marker@) is None,
        },
{
    match strip_prefix(s, marker) {
        None => None,
        Some(rest) => {
            let n: usize = chars_of(marker).len();
            let pad: usize = if n < 4 {
                4 - n
            } else {
                0
            };
            // The group may be cut short at the end of a line.
            if is_empty(rest.as_str()) {
                return Some(rest);
            }
            let chars = chars_of(rest.as_str());
            if chars.len() < pad {
                return None;
            }
            let mut i: usize = 0;
            while i < pad
                invariant
                    i <= pad <= chars@.len(),
                    chars@ == rest@,
                    rest@ == s@.skip(marker@.len() as int),
                    rest@.len() > 0,
                    marker@.is_prefix_of(s@),
                    pad == (if marker@.len() < 4 {
                        4 - marker@.len()
                    } else {
                        0
                    }),
                    forall|j: int| 0 <= j < i ==> rest@[j] == ' ',
                decreases pad - i,
            {
                if chars[i] != ' ' {
                    return None;
                }
                i += 1;
            }
            let out = text_between(&chars, pad, chars.len());
            assert(out@ =~= rest@.skip(pad as int));
            Some(out)
        },
    }
}

/// Split a line into its depth and node text. Depth 0 is a root line.
///
/// Each nesting level is a 4-column prefix group: `│   `, `    `, `├── `, or
/// `└── `. The final group before the text must be a connector (`├──`/`└──`).
fn parse_line(line: &str) -> (out: Option<(usize, String)>)
    ensures
        match out {
            Some((depth, text)) => placed_after(line@, 0) == Some((depth as nat, text@)),
            None => placed_after(line@, 0) is None,
        },
{
    let mut rest = owned(line);
    let mut depth: usize = 0;
    let total: usize = line.unicode_len();
    loop
        invariant
            placed_after(rest@, depth as nat) == placed_after(line@, 0),
            depth + rest@.len() <= total,
            total == line@.len(),
        decreases rest@.len(),
    {
        let connected = match strip_group(rest.as_str(), "├──") {
            Some(r) => Some(r),
            None => strip_group(rest.as_str(), "└──"),
        };
        proof {
            reveal_strlit("├──");
            reveal_strlit("└──");
            reveal_strlit("│");
            reveal_strlit("    ");
        }
        if let Some(r) = connected {
            return Some((depth + 1, trim(r.as_str())));
        }
        let level = match strip_group(rest.as_str(), "│") {
            Some(r) => Some(r),
            None => strip_prefix(rest.as_str(), "    "),
        };
        match level {
            Some(r) => {
                depth += 1;
                rest = r;
            },
            None => {
                if depth == 0 {
                    return Some((0, trim(rest.as_str())));
                }
                return None;
            },
        }
    }
}

/// The kind of the node whose text has the lower-case form `lower`.
pub fn classify_lower(lower: &str) -> (kind: Option<NodeKind>)
    ensures
        kind == kind_of_lower(lower@),
{
    if starts_with(lower, "when ") || starts_with(lower, "given ") {
        Some(NodeKind::Condition)
    } else if crate::text::same(lower, "it") || starts_with(lower, "it ") {
        Some(NodeKind::Action)
    } else {
        None
    }
}

fn classify(text: &str, line: usize) -> (out: Result<NodeKind, ParseError>)
    ensures
        match out {
            Ok(kind) => kind_of(text@) == Some(kind),
            Err(e) => kind_of(text@) is None && e@ == (ParseErrorView::UnknownKeyword {
                line: line as nat,
                text: text@,
            }),
        },
{
    match classify_lower(to_lower(text).as_str()) {
        Some(kind) => Ok(kind),
        None => Err(ParseError::UnknownKeyword { line, text: owned(text) }),
    }
}

/// Add a node at `depth` below the last node of each level above it.
fn attach(nodes: &mut Vec<SpecNode>, depth: usize, node: SpecNode)
    requires
        depth >= 1,
        has_spine(views(old(nodes)@), (depth - 1) as nat),
    ensures
        views(final(nodes)@) == add_at(views(old(nodes)@), depth as nat, node@),
    decreases depth,
{
    let ghost before = views(nodes@);
    if depth == 1 {
        nodes.push(node);
        assert(views(nodes@) =~= before.push(node@));
        return;
    }
    assert(nodes@.len() == before.len());
    let popped = nodes.pop();
    if let Some(mut last) = popped {
        let ghost was = last@;
        proof {
            lemma_node_children(last);
        }
        attach(&mut last.children, depth - 1, node);
        proof {
            lemma_node_children(last);
        }
        nodes.push(last);
        assert(views(nodes@) =~= before.drop_last().push(last@));
        assert(last@.children == add_at(was.children, (depth - 1) as nat, node@));
    }
}

/// Parse the contents of a `.tree` file into one or more spec trees.
///
/// Returns a [`ParseError`] describing the offending line if the file is
/// malformed, or [`ParseError::Empty`] if it contains no trees.
pub fn parse(source: &str) -> (out: Result<Vec<SpecTree>, ParseError>)
    ensures
        match out {
            Ok(trees) => parsed(source@) == Ok::<Seq<SpecTreeView>, ParseErrorView>(
                views(trees@),
            ),
            Err(e) => parsed(source@) == Err::<Seq<SpecTreeView>, ParseErrorView>(e@),
        },
{
    let mut trees: Vec<SpecTree> = Vec::new();
    // The kind and line of the open node of each depth, outermost first.
    let mut open: Vec<(NodeKind, usize)> = Vec::new();
    let all = lines(source);
    let ghost texts = text_lines(source@);
    let ghost shown = |p: (NodeKind, usize)| (p.0, p.1 as nat);
    let mut idx: usize = 0;
    assert(views(trees@) =~= Seq::empty());
    assert(open@.map_values(shown) =~= Seq::empty());
    assert(texts.take(0) =~= Seq::empty());
    while idx < all.len()
        invariant
            idx <= all@.len(),
            texts == text_lines(source@),
            views(all@) == texts,
            shown == |p: (NodeKind, usize)| (p.0, p.1 as nat),
            read_lines(texts.take(idx as int)) == Ok::<Progress, ParseErrorView>(
                Progress { trees: views(trees@), open: open@.map_values(shown) },
            ),
            trees@.len() == 0 ==> open@.len() == 0,
            trees@.len() > 0 ==> has_spine(trees@.last()@.children, open@.len()),
        decreases all@.len() - idx,
    {
        let ghost before = Progress { trees: views(trees@), open: open@.map_values(shown) };
        let raw = &all[idx];
        let line: usize = idx + 1;
        proof {
            assert(texts.take(idx + 1).drop_last() =~= texts.take(idx as int));
            assert(texts.take(idx + 1).last() == raw@);
            assert(read_lines(texts.take(idx + 1)) == read_line(before, line as nat, raw@));
            if read_line(before, line as nat, raw@) is Err {
                lemma_read_lines_stop(texts, idx + 1);
            }
        }
        idx += 1;
        let text = trim_end(raw.as_str());
        if is_empty(text.as_str()) {
            open.clear();
            assert(open@.map_values(shown) =~= Seq::empty());
            continue;
        }
        if starts_with(trim_start(text.as_str()).as_str(), "//") {
            continue;
        }
        let (depth, node_text) = match parse_line(text.as_str()) {
            Some(found) => found,
            None => return Err(ParseError::MalformedPrefix { line, text }),
        };
        if depth == 0 {
            open.clear();
            assert(open@.map_values(shown) =~= Seq::empty());
            let tree = SpecTree { root: node_text, line, children: Vec::new() };
            assert(views(tree.children@) =~= Seq::empty());
            trees.push(tree);
            assert(views(trees@) =~= before.trees.push(tree@));
            continue;
        }
        if trees.len() == 0 {
            return Err(ParseError::BranchBeforeRoot { line });
        }
        let kind = match classify(node_text.as_str(), line) {
            Ok(kind) => kind,
            Err(e) => return Err(e),
        };
        if depth - 1 > open.len() {
            return Err(ParseError::DepthJump { line, from: open.len(), to: depth });
        }
        if depth > 1 {
            let (parent_kind, parent_line) = open[depth - 2];
            assert(before.open[depth - 2] == (parent_kind, parent_line as nat));
            if parent_kind == NodeKind::Action {
                return Err(ParseError::ActionWithChildren { line, parent_line });
            }
        }
        let node = SpecNode { kind, text: node_text, line, children: Vec::new() };
        proof {
            lemma_node_children(node);
            assert(views(node.children@) =~= Seq::empty());
            assert(before.trees.last() == trees@.last()@);
            lemma_spine_shorter(trees@.last()@.children, open@.len(), (depth - 1) as nat);
        }
        let ghost tree_before = trees@.last()@;
        if let Some(mut tree) = trees.pop() {
            attach(&mut tree.children, depth, node);
            trees.push(tree);
            proof {
                assert(views(trees@) =~= before.trees.drop_last().push(tree@));
                lemma_spine_added(tree_before.children, depth as nat, node@);
            }
        }
        open.truncate(depth - 1);
        open.push((kind, line));
        assert(open@.map_values(shown) =~= before.open.take(depth - 1).push((kind, line as nat)));
    }
    assert(texts.take(texts.len() as int) =~= texts);
    if trees.len() == 0 {
        return Err(ParseError::Empty);
    }
    Ok(trees)
}

/// The message of a parse error.
pub open spec fn error_text(e: ParseErrorView) -> Seq<char> {
    match e {
        ParseErrorView::BranchBeforeRoot { line } => "line "@ + decimal_of(line)
            + ": branch node before any root line"@,
        ParseErrorView::ActionWithChildren { line, parent_line } => "line "@ + decimal_of(line)
            + ": `it` nodes cannot have children (parent at line "@ + decimal_of(parent_line)
            + ")"@,
        ParseErrorView::DepthJump { line, from, to } => "line "@ + decimal_of(line)
            + ": indentation jumps from depth "@ + decimal_of(from) + " to "@ + decimal_of(to),
        ParseErrorView::UnknownKeyword { line, text } => "line "@ + decimal_of(line)
            + ": node must start with `when`, `given`, or `it`: "@ + debug_of(text),
        ParseErrorView::MalformedPrefix { line, text } => "line "@ + decimal_of(line)
            + ": malformed tree prefix: "@ + debug_of(text),
        ParseErrorView::Empty => "no trees found in file"@,
    }
}

impl ParseError {
    /// The message of this error.
    pub fn to_string(&self) -> (out: String)
        ensures
            out@ == error_text(self@),
    {
        match self {
            ParseError::BranchBeforeRoot { line } => concat3(
                "line ",
                count_text(*line).as_str(),
                ": branch node before any root line",
            ),
            ParseError::ActionWithChildren { line, parent_line } => {
                let mut out = concat3(
                    "line ",
                    count_text(*line).as_str(),
                    ": `it` nodes cannot have children (parent at line ",
                );
                out.append(count_text(*parent_line).as_str());
                out.append(")");
                out
            },
            ParseError::DepthJump { line, from, to } => {
                let mut out = concat3(
                    "line ",
                    count_text(*line).as_str(),
                    ": indentation jumps from depth ",
                );
                out.append(count_text(*from).as_str());
                out.append(" to ");
                out.append(count_text(*to).as_str());
                out
            },
            ParseError::UnknownKeyword { line, text } => {
                let mut out = concat3(
                    "line ",
                    count_text(*line).as_str(),
                    ": node must start with `when`, `given`, or `it`: ",
                );
                out.append(debug(text.as_str()).as_str());
                out
            },
            ParseError::MalformedPrefix { line, text } => {
                let mut out = concat3(
                    "line ",
                    count_text(*line).as_str(),
                    ": malformed tree prefix: ",
                );
                out.append(debug(text.as_str()).as_str());
                out
            },
            ParseError::Empty => owned("no trees found in file"),
        }
    }
}

/// The nodes in document order, each with its depth, text, and line, where
/// the given nodes stand at `depth`.
pub open spec fn node_listing(nodes: Seq<SpecNodeView>, depth: nat) -> Seq<(nat, Seq<char>, nat)>
    decreases nodes,
{
    if nodes.len() == 0 {
        Seq::empty()
    } else {
        let last = nodes.last();
        node_listing(nodes.drop_last(), depth).push((depth, last.text, last.line)) + node_listing(
            last.children,
            depth + 1,
        )
    }
}

/// The roots and nodes of the trees in document order, each with its depth,
/// text, and line.
pub open spec fn tree_listing(trees: Seq<SpecTreeView>) -> Seq<(nat, Seq<char>, nat)>
    decreases trees.len(),
{
    if trees.len() == 0 {
        Seq::empty()
    } else {
        let last = trees.last();
        tree_listing(trees.drop_last()).push((0, last.root, last.line)) + node_listing(
            last.children,
            1,
        )
    }
}

/// The root and branch lines of a file, each with its depth, text, and line
/// number.
pub open spec fn line_listing(lines: Seq<Seq<char>>) -> Seq<(nat, Seq<char>, nat)>
    decreases lines.len(),
{
    if lines.len() == 0 {
        Seq::empty()
    } else {
        match entry_of(lines.last()) {
            Entry::Node { depth, text } => line_listing(lines.drop_last()).push(
                (depth, text, lines.len()),
            ),
            _ => line_listing(lines.drop_last()),
        }
    }
}

/// Whether every node has the kind its text names and no action has
/// children.
pub open spec fn well_formed(nodes: Seq<SpecNodeView>) -> bool
    decreases nodes,
{
    nodes.len() > 0 ==> {
        let last = nodes.last();
        &&& well_formed(nodes.drop_last())
        &&& kind_of(last.text) == Some(last.kind)
        &&& last.kind == NodeKind::Action ==> last.children.len() == 0
        &&& well_formed(last.children)
    }
}

/// Whether the last nodes of the levels have the given kinds and lines.
spec fn spine_is(nodes: Seq<SpecNodeView>, open: Seq<(NodeKind, nat)>) -> bool
    decreases open.len(),
{
    open.len() > 0 ==> {
        &&& nodes.len() > 0
        &&& (nodes.last().kind, nodes.last().line) == open[0]
        &&& spine_is(nodes.last().children, open.drop_first())
    }
}

spec fn progress_inv(p: Progress) -> bool {
    &&& p.trees.len() == 0 ==> p.open.len() == 0
    &&& p.trees.len() > 0 ==> spine_is(p.trees.last().children, p.open)
    &&& forall|i: int| 0 <= i < p.trees.len() ==> well_formed((#[trigger] p.trees[i]).children)
}

proof fn lemma_spine_take(nodes: Seq<SpecNodeView>, open: Seq<(NodeKind, nat)>, n: int)
    requires
        0 <= n <= open.len(),
        spine_is(nodes, open),
    ensures
        spine_is(nodes, open.take(n)),
    decreases n,
{
    if n > 0 {
        lemma_spine_take(nodes.last().children, open.drop_first(), n - 1);
        assert(open.take(n).drop_first() =~= open.drop_first().take(n - 1));
    }
}

proof fn lemma_added(
    nodes: Seq<SpecNodeView>,
    open: Seq<(NodeKind, nat)>,
    depth: nat,
    node: SpecNodeView,
    base: nat,
)
    requires
        depth == open.len() + 1,
        spine_is(nodes, open),
        well_formed(nodes),
        node.children.len() == 0,
        kind_of(node.text) == Some(node.kind),
        open.len() > 0 ==> open.last().0 != NodeKind::Action,
    ensures
        spine_is(add_at(nodes, depth, node), open.push((node.kind, node.line))),
        well_formed(add_at(nodes, depth, node)),
        node_listing(add_at(nodes, depth, node), base) == node_listing(nodes, base).push(
            ((base + depth - 1) as nat, node.text, node.line),
        ),
    decreases depth,
{
    let after = add_at(nodes, depth, node);
    let opened = open.push((node.kind, node.line));
    if depth == 1 {
        assert(after.drop_last() =~= nodes);
        assert(opened.drop_first() =~= Seq::empty());
        assert(spine_is(after.last().children, opened.drop_first()));
        assert(well_formed(node.children));
        assert(node_listing(node.children, base + 1) =~= Seq::empty());
        assert(node_listing(after, base) =~= node_listing(nodes, base).push(
            (base, node.text, node.line),
        ));
    } else {
        let last = nodes.last();
        let inner = open.drop_first();
        if inner.len() > 0 {
            assert(inner.last() == open.last());
        } else {
            assert(open.last() == open[0]);
        }
        lemma_added(last.children, inner, (depth - 1) as nat, node, base + 1);
        assert(after.drop_last() =~= nodes.drop_last());
        assert(opened.drop_first() =~= inner.push((node.kind, node.line)));
        assert(spine_is(last.children, inner));
        assert(well_formed(last.children));
        assert(node_listing(after, base) =~= node_listing(nodes, base).push(
            ((base + depth - 1) as nat, node.text, node.line),
        ));
    }
}

proof fn lemma_read(lines: Seq<Seq<char>>)
    ensures
        read_lines(lines) matches Ok(p) ==> progress_inv(p) && tree_listing(p.trees)
            == line_listing(lines),
    decreases lines.len(),
{
    if lines.len() > 0 {
        lemma_read(lines.drop_last());
        if let Ok(p) = read_lines(lines) {
            let before = read_lines(lines.drop_last())->Ok_0;
            match entry_of(lines.last()) {
                Entry::Node { depth, text } => {
                    if depth == 0 {
                        assert(p.trees.drop_last() =~= before.trees);
                        assert(tree_listing(p.trees) =~= tree_listing(before.trees).push(
                            (0, text, lines.len()),
                        ));
                    } else {
                        let node = SpecNodeView {
                            kind: kind_of(text)->0,
                            text,
                            line: lines.len(),
                            children: Seq::empty(),
                        };
                        let tree = before.trees.last();
                        let open = before.open.take(depth - 1);
                        lemma_spine_take(tree.children, before.open, depth - 1);
                        lemma_added(tree.children, open, depth, node, 1);
                        assert(p.trees.drop_last() =~= before.trees.drop_last());
                        assert(tree_listing(p.trees) =~= tree_listing(before.trees).push(
                            (depth, text, lines.len()),
                        ));
                    }
                },
                _ => {},
            }
        }
    }
}

/// Reading a file loses and invents nothing: the trees of a file list, in
/// document order, exactly its root and branch lines, each at its depth,
/// with its text and its line number.
pub proof fn law_parsed_trees_list_the_lines(source: Seq<char>)
    requires
        parsed(source) is Ok,
    ensures
        tree_listing(parsed(source)->Ok_0) == line_listing(text_lines(source)),
{
    lemma_read(text_lines(source));
}

/// In a parsed file every node has the kind its text names, and actions are
/// leaves.
pub proof fn law_parsed_trees_are_well_formed(source: Seq<char>, i: int)
    requires
        parsed(source) is Ok,
        0 <= i < parsed(source)->Ok_0.len(),
    ensures
        well_formed(parsed(source)->Ok_0[i].children),
{
    lemma_read(text_lines(source));
}

/// The number that a line has once a line is put in behind the first `k`.
pub open spec fn moved_line(line: nat, k: nat) -> nat {
    if line <= k {
        line
    } else {
        line + 1
    }
}

/// A node with its line moved, and those of the nodes below it.
pub open spec fn moved_node(node: SpecNodeView, k: nat) -> SpecNodeView
    decreases node, 0int,
{
    SpecNodeView {
        kind: node.kind,
        text: node.text,
        line: moved_line(node.line, k),
        children: moved_nodes(node.children, k),
    }
}

/// Nodes with their lines moved.
pub open spec fn moved_nodes(nodes: Seq<SpecNodeView>, k: nat) -> Seq<SpecNodeView>
    decreases nodes, 1int,
{
    if nodes.len() == 0 {
        Seq::empty()
    } else {
        moved_nodes(nodes.drop_last(), k).push(moved_node(nodes.last(), k))
    }
}

/// Trees with their lines moved.
pub open spec fn moved_trees(trees: Seq<SpecTreeView>, k: nat) -> Seq<SpecTreeView> {
    trees.map_values(
        |tree: SpecTreeView|
            SpecTreeView {
                root: tree.root,
                line: moved_line(tree.line, k),
                children: moved_nodes(tree.children, k),
            },
    )
}

/// An error with its lines moved.
pub open spec fn moved_error(e: ParseErrorView, k: nat) -> ParseErrorView {
    match e {
        ParseErrorView::BranchBeforeRoot { line } => ParseErrorView::BranchBeforeRoot {
            line: moved_line(line, k),
        },
        ParseErrorView::ActionWithChildren { line, parent_line } => {
            ParseErrorView::ActionWithChildren {
                line: moved_line(line, k),
                parent_line: moved_line(parent_line, k),
            }
        },
        ParseErrorView::DepthJump { line, from, to } => ParseErrorView::DepthJump {
            line: moved_line(line, k),
            from,
            to,
        },
        ParseErrorView::UnknownKeyword { line, text } => ParseErrorView::UnknownKeyword {
            line: moved_line(line, k),
            text,
        },
        ParseErrorView::MalformedPrefix { line, text } => ParseErrorView::MalformedPrefix {
            line: moved_line(line, k),
            text,
        },
        ParseErrorView::Empty => ParseErrorView::Empty,
    }
}

/// What was read, with its lines moved.
spec fn moved_progress(read: Result<Progress, ParseErrorView>, k: nat) -> Result<
    Progress,
    ParseErrorView,
> {
    match read {
        Ok(p) => Ok(
            Progress {
                trees: moved_trees(p.trees, k),
                open: p.open.map_values(|o: (NodeKind, nat)| (o.0, moved_line(o.1, k))),
            },
        ),
        Err(e) => Err(moved_error(e, k)),
    }
}

proof fn lemma_moved_len(nodes: Seq<SpecNodeView>, k: nat)
    ensures
        moved_nodes(nodes, k).len() == nodes.len(),
    decreases nodes.len(),
{
    if nodes.len() > 0 {
        lemma_moved_len(nodes.drop_last(), k);
    }
}

proof fn lemma_moved_add(nodes: Seq<SpecNodeView>, depth: nat, node: SpecNodeView, k: nat)
    ensures
        moved_nodes(add_at(nodes, depth, node), k) == add_at(
            moved_nodes(nodes, k),
            depth,
            moved_node(node, k),
        ),
    decreases depth,
{
    lemma_moved_len(nodes, k);
    let added = add_at(nodes, depth, node);
    if depth <= 1 || nodes.len() == 0 {
        assert(added.drop_last() =~= nodes);
    } else {
        let last = nodes.last();
        lemma_moved_add(last.children, (depth - 1) as nat, node, k);
        assert(added.drop_last() =~= nodes.drop_last());
        assert(moved_nodes(nodes, k).drop_last() =~= moved_nodes(nodes.drop_last(), k));
        assert(moved_nodes(nodes, k).last() == moved_node(last, k));
        let grown = SpecNodeView {
            children: add_at(last.children, (depth - 1) as nat, node),
            ..last
        };
        assert(added.last() == grown);
        assert(moved_node(grown, k).children == moved_nodes(grown.children, k));
        assert(moved_node(last, k).children == moved_nodes(last.children, k));
        assert(moved_nodes(added, k) =~= moved_nodes(nodes.drop_last(), k).push(
            moved_node(grown, k),
        ));
    }
}

proof fn lemma_moved_read(p: Progress, line: nat, raw: Seq<char>, k: nat)
    requires
        p.trees.len() == 0 ==> p.open.len() == 0,
    ensures
        moved_progress(read_line(p, line, raw), k) == read_line(
            moved_progress(Ok(p), k)->Ok_0,
            moved_line(line, k),
            raw,
        ),
{
    let q = moved_progress(Ok(p), k)->Ok_0;
    let left = moved_progress(read_line(p, line, raw), k);
    let right = read_line(q, moved_line(line, k), raw);
    match entry_of(raw) {
        Entry::Blank => {
            assert(left->Ok_0.open =~= right->Ok_0.open);
        },
        Entry::Comment => {},
        Entry::Malformed { text } => {},
        Entry::Node { depth, text } => {
            if depth == 0 {
                assert(moved_nodes(Seq::empty(), k) =~= Seq::empty());
                assert(left->Ok_0.trees =~= right->Ok_0.trees);
                assert(left->Ok_0.open =~= right->Ok_0.open);
            } else if p.trees.len() > 0 {
                if let Some(kind) = kind_of(text) {
                    if depth <= p.open.len() + 1 && !(depth > 1 && p.open[depth - 2].0
                        == NodeKind::Action) {
                        let node = SpecNodeView { kind, text, line, children: Seq::empty() };
                        assert(moved_node(node, k).children =~= Seq::empty());
                        lemma_moved_add(p.trees.last().children, depth, node, k);
                        assert(left->Ok_0.trees =~= right->Ok_0.trees);
                        assert(left->Ok_0.open =~= right->Ok_0.open);
                    }
                }
            }
        },
    }
}

proof fn lemma_open_in_a_tree(lines: Seq<Seq<char>>)
    ensures
        read_lines(lines) matches Ok(p) ==> (p.trees.len() == 0 ==> p.open.len() == 0),
    decreases lines.len(),
{
    if lines.len() > 0 {
        lemma_open_in_a_tree(lines.drop_last());
    }
}

proof fn lemma_moved_nothing(lines: Seq<Seq<char>>, k: nat)
    requires
        lines.len() <= k,
    ensures
        moved_progress(read_lines(lines), k) == read_lines(lines),
    decreases lines.len(),
{
    if lines.len() == 0 {
        let p = read_lines(lines)->Ok_0;
        assert(moved_trees(p.trees, k) =~= p.trees);
        assert(moved_progress(Ok(p), k)->Ok_0.open =~= p.open);
    } else {
        lemma_moved_nothing(lines.drop_last(), k);
        lemma_open_in_a_tree(lines.drop_last());
        if let Ok(p) = read_lines(lines.drop_last()) {
            lemma_moved_read(p, lines.len(), lines.last(), k);
        }
    }
}

proof fn lemma_comment_moves(lines: Seq<Seq<char>>, k: nat, note: Seq<char>)
    requires
        k <= lines.len(),
        entry_of(note) is Comment,
    ensures
        read_lines(lines.insert(k as int, note)) == moved_progress(read_lines(lines), k),
    decreases lines.len(),
{
    let more = lines.insert(k as int, note);
    if lines.len() == k {
        lemma_moved_nothing(lines, k);
        assert(more.drop_last() =~= lines);
    } else {
        lemma_comment_moves(lines.drop_last(), k, note);
        lemma_open_in_a_tree(lines.drop_last());
        assert(more.drop_last() =~= lines.drop_last().insert(k as int, note));
        assert(more.last() == lines.last());
        if let Ok(p) = read_lines(lines.drop_last()) {
            lemma_moved_read(p, lines.len(), lines.last(), k);
        }
    }
}

/// The trees or the error of a file, with their lines moved.
pub open spec fn moved(result: Result<Seq<SpecTreeView>, ParseErrorView>, k: nat) -> Result<
    Seq<SpecTreeView>,
    ParseErrorView,
> {
    match result {
        Ok(trees) => Ok(moved_trees(trees, k)),
        Err(e) => Err(moved_error(e, k)),
    }
}

/// A comment line means nothing: put in between any two lines of a file, in the
/// middle of a tree too, it changes neither whether the file parses nor the
/// roots, texts, kinds and nesting of its trees. Only the numbers of the lines
/// behind it grow by one.
pub proof fn law_comments_only_move_lines(head: Seq<char>, note: Seq<char>, tail: Seq<char>)
    requires
        head.len() == 0 || head.last() == '\n',
        !note.contains('\n'),
        !note.contains('\r'),
        entry_of(note) is Comment,
    ensures
        parsed(head + note.push('\n') + tail) == moved(
            parsed(head + tail),
            text_lines(head).len(),
        ),
{
    let k = text_lines(head).len();
    let lines = text_lines(head + tail);
    let line = note.push('\n');
    lemma_lines_join(head, tail);
    lemma_lines_join(head, line + tail);
    lemma_lines_join(line, tail);
    lemma_one_line(note);
    assert(head + line + tail =~= head + (line + tail));
    assert(text_lines(head + line + tail) =~= lines.insert(k as int, note));
    lemma_comment_moves(lines, k, note);
    if let Ok(p) = read_lines(lines) {
        assert(moved_trees(p.trees, k).len() == p.trees.len());
    }
}

/// Whether four columns continue a level above: a bar and three spaces, or four
/// spaces.
pub open spec fn is_level(g: Seq<char>) -> bool {
    g == seq!['│', ' ', ' ', ' '] || g == seq![' ', ' ', ' ', ' ']
}

/// Whether four columns connect a node to the level above.
pub open spec fn is_connector(g: Seq<char>) -> bool {
    g == seq!['├', '─', '─', ' '] || g == seq!['└', '─', '─', ' ']
}

/// Whether a text is what stands before the text of a node at a depth: whole
/// groups that continue the levels above, and then one that connects.
pub open spec fn is_branch_prefix(p: Seq<char>, depth: nat) -> bool
    decreases depth,
{
    if depth == 0 {
        false
    } else if depth == 1 {
        is_connector(p)
    } else {
        p.len() >= 4 && is_level(p.take(4)) && is_branch_prefix(p.skip(4), (depth - 1) as nat)
    }
}

/// Whether a line is a prefix for a depth, white space, a text and white space.
pub open spec fn is_branch_line(raw: Seq<char>, depth: nat, text: Seq<char>) -> bool {
    exists|p: Seq<char>, a: Seq<char>, b: Seq<char>|
        is_branch_prefix(p, depth) && all_white(a) && all_white(b) && raw == #[trigger] (p + a
            + text + b)
}

proof fn lemma_markers()
    ensures
        "├──"@ == seq!['├', '─', '─'],
        "└──"@ == seq!['└', '─', '─'],
        "│"@ == seq!['│'],
        "    "@ == seq![' ', ' ', ' ', ' '],
        "//"@ == seq!['/', '/'],
{
    reveal_strlit("├──");
    reveal_strlit("└──");
    reveal_strlit("│");
    reveal_strlit("    ");
    reveal_strlit("//");
    assert("├──"@ =~= seq!['├', '─', '─']);
    assert("└──"@ =~= seq!['└', '─', '─']);
    assert("│"@ =~= seq!['│']);
    assert("    "@ =~= seq![' ', ' ', ' ', ' ']);
    assert("//"@ =~= seq!['/', '/']);
}

proof fn lemma_placed_shape(s: Seq<char>, above: nat)
    requires
        placed_after(s, above) matches Some((depth, text)) && depth > above && text.len() > 0,
    ensures
        ({
            let (depth, text) = placed_after(s, above)->0;
            is_branch_line(s, (depth - above) as nat, text)
        }),
    decreases s.len(),
{
    lemma_markers();
    let (depth, text) = placed_after(s, above)->0;
    match connector_rest(s) {
        Some(rest) => {
            law_trimming_takes_white_space_off(rest);
            let (a, b) = margins(rest);
            let p = s.take(4);
            if rest.len() == 0 {
                assert(trimmed(rest) =~= Seq::empty());
            }
            let marker = if group_rest(s, "├──"@) is Some {
                "├──"@
            } else {
                "└──"@
            };
            assert(marker.is_prefix_of(s));
            assert(s.subrange(0, 3) =~= marker);
            assert(s[0] == marker[0] && s[1] == marker[1] && s[2] == marker[2]) by {
                assert(s.subrange(0, 3)[0] == s[0] && s.subrange(0, 3)[1] == s[1] && s.subrange(
                    0,
                    3,
                )[2] == s[2]);
            }
            let padded = s.skip(3);
            assert(padded[0] == ' ');
            assert(s[3] == ' ');
            assert(rest =~= s.skip(4));
            assert(p =~= seq![s[0], s[1], s[2], s[3]]);
            assert(is_connector(p));
            assert(is_branch_prefix(p, 1));
            assert(s =~= p + rest);
            assert(p + (a + text + b) =~= p + a + text + b);
        },
        None => {
            let rest = level_rest(s)->0;
            lemma_placed_deeper(rest, above + 1);
            lemma_placed_shape(rest, above + 1);
            let d = (depth - above - 1) as nat;
            let (p, a, b) = choose|p: Seq<char>, a: Seq<char>, b: Seq<char>|
                is_branch_prefix(p, d) && all_white(a) && all_white(b) && rest == #[trigger] (p + a
                    + text + b);
            lemma_prefix_len(p, d);
            assert(rest.len() > 0);
            let g = s.take(4);
            if group_rest(s, "│"@) is Some {
                assert("│"@.is_prefix_of(s));
                assert(s.subrange(0, 1)[0] == s[0]);
                assert(s[0] == '│');
                let padded = s.skip(1);
                assert(padded[0] == ' ' && padded[1] == ' ' && padded[2] == ' ');
                assert(s[1] == ' ' && s[2] == ' ' && s[3] == ' ');
                assert(rest =~= s.skip(4));
                assert(g =~= seq!['│', ' ', ' ', ' ']);
            } else {
                assert(s.subrange(0, 4) =~= g);
                assert(g =~= seq![' ', ' ', ' ', ' ']);
            }
            let whole = g + p;
            assert(whole.take(4) =~= g);
            assert(whole.skip(4) =~= p);
            assert(is_branch_prefix(whole, (d + 1) as nat));
            assert(rest =~= s.skip(4));
            assert(s =~= g + rest);
            assert(g + (p + a + text + b) =~= whole + a + text + b);
        },
    }
}

proof fn lemma_placed_deeper(s: Seq<char>, above: nat)
    requires
        above > 0,
    ensures
        placed_after(s, above) matches Some((depth, _)) ==> depth > above,
    decreases s.len(),
{
    if connector_rest(s) is None {
        if let Some(rest) = level_rest(s) {
            if rest.len() < s.len() {
                lemma_placed_deeper(rest, above + 1);
            }
        }
    }
}

proof fn lemma_prefix_len(p: Seq<char>, depth: nat)
    requires
        is_branch_prefix(p, depth),
    ensures
        p.len() == 4 * depth,
        !is_white(p[p.len() - 4]),
        p[p.len() - 4] == '├' || p[p.len() - 4] == '└',
    decreases depth,
{
    if depth > 1 {
        lemma_prefix_len(p.skip(4), (depth - 1) as nat);
        assert(p.skip(4)[p.len() - 8] == p[p.len() - 4]);
    }
}

/// The text of a branch is part of its line, character for character: the line
/// is made of whole groups for the levels above, one that connects, white space,
/// the text and white space.
pub proof fn law_branch_lines_hold_their_text(raw: Seq<char>)
    requires
        entry_of(raw) matches Entry::Node { depth, text } && depth > 0 && text.len() > 0,
    ensures
        entry_of(raw) matches Entry::Node { depth, text } && is_branch_line(raw, depth, text)
            && stands_free(text),
{
    let end = trimmed_end(raw);
    let (depth, text) = placed_after(end, 0)->0;
    lemma_placed_shape(end, 0);
    lemma_end_parts(raw);
    lemma_placed_free(end, 0);
    let tail = raw.skip(end.len() as int);
    let (p, a, b) = choose|p: Seq<char>, a: Seq<char>, b: Seq<char>|
        is_branch_prefix(p, depth) && all_white(a) && all_white(b) && end == #[trigger] (p + a
            + text + b);
    let c = b + tail;
    assert forall|i: int| 0 <= i < c.len() implies is_white(#[trigger] c[i]) by {
        if i < b.len() {
            assert(c[i] == b[i]);
        } else {
            assert(c[i] == tail[i - b.len()]);
        }
    }
    assert(raw =~= end + tail);
    assert(raw =~= p + a + text + c);
}

proof fn lemma_placed_free(s: Seq<char>, above: nat)
    ensures
        placed_after(s, above) matches Some((_, text)) ==> stands_free(text),
    decreases s.len(),
{
    match connector_rest(s) {
        Some(rest) => {
            law_trimming_takes_white_space_off(rest);
        },
        None => match level_rest(s) {
            Some(rest) => {
                if rest.len() < s.len() {
                    lemma_placed_free(rest, above + 1);
                }
            },
            None => {
                law_trimming_takes_white_space_off(s);
            },
        },
    }
}

proof fn lemma_no_prefix(m: Seq<char>, s: Seq<char>)
    requires
        m.len() > 0,
        s.len() == 0 || s[0] != m[0],
    ensures
        !m.is_prefix_of(s),
{
    if m.is_prefix_of(s) {
        assert(s.subrange(0, m.len() as int)[0] == s[0]);
    }
}

proof fn lemma_connector(s: Seq<char>)
    requires
        s.len() > 4,
        is_connector(s.take(4)),
    ensures
        connector_rest(s) == Some(s.skip(4)),
{
    lemma_markers();
    let g = s.take(4);
    assert(s[0] == g[0] && s[1] == g[1] && s[2] == g[2] && s[3] == g[3]);
    let marker = if s[0] == '├' {
        "├──"@
    } else {
        "└──"@
    };
    assert(s.subrange(0, 3) =~= marker);
    let rest = s.skip(3);
    assert(rest[0] == ' ');
    assert(rest.skip(1) =~= s.skip(4));
    if s[0] != '├' {
        lemma_no_prefix("├──"@, s);
    }
}

proof fn lemma_level(s: Seq<char>)
    requires
        s.len() > 4,
        is_level(s.take(4)),
    ensures
        connector_rest(s) is None,
        level_rest(s) == Some(s.skip(4)),
{
    lemma_markers();
    let g = s.take(4);
    assert(s[0] == g[0] && s[1] == g[1] && s[2] == g[2] && s[3] == g[3]);
    lemma_no_prefix("├──"@, s);
    lemma_no_prefix("└──"@, s);
    if s[0] == '│' {
        assert(s.subrange(0, 1) =~= "│"@);
        let rest = s.skip(1);
        assert(rest[0] == ' ' && rest[1] == ' ' && rest[2] == ' ');
        assert(rest.skip(3) =~= s.skip(4));
    } else {
        lemma_no_prefix("│"@, s);
        assert(s.subrange(0, 4) =~= "    "@);
    }
}

proof fn lemma_placed_back(p: Seq<char>, text: Seq<char>, depth: nat, above: nat)
    requires
        is_branch_prefix(p, depth),
        text.len() > 0,
        stands_free(text),
    ensures
        placed_after(p + text, above) == Some(((above + depth) as nat, text)),
    decreases depth,
{
    lemma_prefix_len(p, depth);
    let s = p + text;
    if depth == 1 {
        assert(s.take(4) =~= p);
        lemma_connector(s);
        assert(s.skip(4) =~= text);
        let none = Seq::<char>::empty();
        law_trimming_gives_the_text_back(none, text, none);
        assert(none + text + none =~= text);
    } else {
        assert(s.take(4) =~= p.take(4));
        lemma_level(s);
        assert(s.skip(4) =~= p.skip(4) + text);
        lemma_placed_back(p.skip(4), text, (depth - 1) as nat, above + 1);
    }
}

proof fn lemma_first_ink(s: Seq<char>, k: int)
    requires
        0 <= k < s.len(),
        !is_white(s[k]),
    ensures
        trimmed_start(s).len() > 0,
        trimmed_start(s).len() >= s.len() - k,
    decreases s.len(),
{
    if is_white(s[0]) {
        lemma_first_ink(s.drop_first(), k - 1);
    }
}

/// A line of groups for the levels above, one that connects, and a text is read
/// as the branch with that text at that depth, whatever white space follows.
pub proof fn law_branches_are_read_as_written(
    p: Seq<char>,
    depth: nat,
    text: Seq<char>,
    b: Seq<char>,
)
    requires
        is_branch_prefix(p, depth),
        text.len() > 0,
        stands_free(text),
        all_white(b),
    ensures
        entry_of(p + text + b) == (Entry::Node { depth, text }),
{
    lemma_markers();
    let s = p + text;
    lemma_end_off(s, b);
    lemma_prefix_len(p, depth);
    assert(s.last() == text.last());
    assert(trimmed_end(s) == s);
    lemma_placed_back(p, text, depth, 0);
    // The first character that is no white space draws a line.
    let ink = trimmed_start(s);
    let k = p.len() - 4;
    lemma_first_ink(s, k);
    lemma_start_parts(s);
    let off = s.len() - ink.len();
    assert(ink[0] == s[off]);
    lemma_prefix_ink(p, depth, off);
    assert(!"//"@.is_prefix_of(ink)) by {
        if "//"@.is_prefix_of(ink) {
            assert(ink.subrange(0, 2)[0] == '/');
        }
    }
}

proof fn lemma_prefix_ink(p: Seq<char>, depth: nat, i: int)
    requires
        is_branch_prefix(p, depth),
        0 <= i < p.len(),
    ensures
        p[i] != '/',
    decreases depth,
{
    if depth > 1 {
        if i >= 4 {
            lemma_prefix_ink(p.skip(4), (depth - 1) as nat, i - 4);
        } else {
            assert(p.take(4)[i] == p[i]);
        }
    }
}

/// A line of white space is blank, and one whose first characters, white space
/// aside, are two slashes is a comment.
pub proof fn law_blank_and_comment_lines(a: Seq<char>, rest: Seq<char>)
    requires
        all_white(a),
    ensures
        entry_of(a) is Blank,
        entry_of(a + seq!['/', '/'] + rest) is Comment,
{
    lemma_markers();
    let none = Seq::<char>::empty();
    lemma_end_off(none, a);
    assert(none + a =~= a);
    let note = seq!['/', '/'] + rest;
    let raw = a + seq!['/', '/'] + rest;
    assert(raw =~= a + note);
    lemma_end_parts(raw);
    let end = trimmed_end(raw);
    let n = a.len() as int;
    assert(end.len() >= n + 2) by {
        if end.len() < n + 2 {
            assert(raw.skip(end.len() as int)[n + 1 - end.len()] == '/');
        }
    }
    let kept = end.skip(n);
    assert(end =~= a + kept);
    assert(kept[0] == raw[n] && kept[1] == raw[n + 1]);
    lemma_start_off(a, kept);
    assert(kept.subrange(0, 2) =~= "//"@);
}

/// A line whose text begins neither with what draws a branch nor with a slash,
/// within the first four columns, is the root with that text.
pub proof fn law_roots_are_read_as_written(a: Seq<char>, text: Seq<char>, b: Seq<char>)
    requires
        all_white(a),
        a.len() < 4,
        text.len() > 0,
        stands_free(text),
        text[0] != '│' && text[0] != '├' && text[0] != '└' && text[0] != '/',
        all_white(b),
    ensures
        entry_of(a + text + b) == (Entry::Node { depth: 0, text }),
{
    lemma_markers();
    let s = a + text;
    lemma_end_off(s, b);
    assert(s.last() == text.last());
    assert(trimmed_end(s) == s);
    lemma_start_off(a, text);
    assert(!"//"@.is_prefix_of(text)) by {
        if "//"@.is_prefix_of(text) {
            assert(text.subrange(0, 2)[0] == '/');
        }
    }
    assert(s[0] != '├' && s[0] != '└' && s[0] != '│') by {
        if a.len() == 0 {
            assert(s[0] == text[0]);
        } else {
            assert(is_white(a[0]));
        }
    }
    assert(!"├──"@.is_prefix_of(s)) by {
        if "├──"@.is_prefix_of(s) {
            assert(s.subrange(0, 3)[0] == s[0]);
        }
    }
    assert(!"└──"@.is_prefix_of(s)) by {
        if "└──"@.is_prefix_of(s) {
            assert(s.subrange(0, 3)[0] == s[0]);
        }
    }
    assert(!"│"@.is_prefix_of(s)) by {
        if "│"@.is_prefix_of(s) {
            assert(s.subrange(0, 1)[0] == s[0]);
        }
    }
    assert(!"    "@.is_prefix_of(s)) by {
        if "    "@.is_prefix_of(s) {
            assert(s.subrange(0, 4)[a.len() as int] == s[a.len() as int]);
            assert(s[a.len() as int] == text[0]);
        }
    }
    let none = Seq::<char>::empty();
    law_trimming_gives_the_text_back(a, text, none);
    assert(a + text + none =~= s);
}

/// Whether a text begins with a word in small letters, in any case.
pub open spec fn begins(text: Seq<char>, word: Seq<char>) -> bool {
    text.len() >= word.len() && forall|i: int|
        0 <= i < word.len() ==> (#[trigger] text[i] == word[i] || ('a' <= word[i] <= 'z'
            && text[i] as int + 32 == word[i] as int))
}

proof fn lemma_begins(text: Seq<char>, word: Seq<char>)
    requires
        is_ascii_text(text),
        forall|i: int|
            0 <= i < word.len() ==> ('a' <= #[trigger] word[i] <= 'z') || word[i] == ' ',
    ensures
        word.is_prefix_of(lower_text(text)) <==> begins(text, word),
{
    let lower = lower_text(text);
    assert(lower.len() == text.len());
    if word.is_prefix_of(lower) {
        assert forall|i: int| 0 <= i < word.len() implies (#[trigger] text[i] == word[i] || ('a'
            <= word[i] <= 'z' && text[i] as int + 32 == word[i] as int)) by {
            assert(lower.subrange(0, word.len() as int)[i] == lower[i]);
            assert(lower[i] == ascii_lower(text[i]));
        }
    }
    if begins(text, word) {
        assert forall|i: int| 0 <= i < word.len() implies #[trigger] lower[i] == word[i] by {
            assert(lower[i] == ascii_lower(text[i]));
            assert(text[i] == word[i] || ('a' <= word[i] <= 'z' && text[i] as int + 32
                == word[i] as int));
        }
        assert(lower.subrange(0, word.len() as int) =~= word);
    }
}

/// A node is a branch where its text begins with `when` or `given` and a space,
/// and a leaf where it is `it` or begins with that and a space, in any case;
/// any other text names no kind.
pub proof fn law_keywords_name_the_kind(text: Seq<char>)
    requires
        is_ascii_text(text),
    ensures
        ({
            let branch = begins(text, seq!['w', 'h', 'e', 'n', ' ']) || begins(
                text,
                seq!['g', 'i', 'v', 'e', 'n', ' '],
            );
            let leaf = begins(text, seq!['i', 't', ' ']) || (text.len() == 2 && begins(
                text,
                seq!['i', 't'],
            ));
            &&& branch ==> kind_of(text) == Some(NodeKind::Condition)
            &&& leaf ==> kind_of(text) == Some(NodeKind::Action)
            &&& !branch && !leaf ==> kind_of(text) is None
        }),
{
    reveal_strlit("when ");
    reveal_strlit("given ");
    reveal_strlit("it ");
    reveal_strlit("it");
    assert("when "@ =~= seq!['w', 'h', 'e', 'n', ' ']);
    assert("given "@ =~= seq!['g', 'i', 'v', 'e', 'n', ' ']);
    assert("it "@ =~= seq!['i', 't', ' ']);
    assert("it"@ =~= seq!['i', 't']);
    lemma_begins(text, "when "@);
    lemma_begins(text, "given "@);
    lemma_begins(text, "it "@);
    lemma_begins(text, "it"@);
    let lower = lower_text(text);
    assert(lower.len() == text.len());
    if lower == "it"@ {
        assert("it"@.is_prefix_of(lower)) by {
            assert(lower.subrange(0, 2) =~= lower);
        }
    }
    if text.len() == 2 && "it"@.is_prefix_of(lower) {
        assert(lower.subrange(0, 2) =~= lower);
    }
    if begins(text, "it "@) {
        assert(text[0] == 'i' || text[0] as int + 32 == 'i' as int);
    }
    if text.len() == 2 && begins(text, "it"@) {
        assert(text[0] == 'i' || text[0] as int + 32 == 'i' as int);
    }
    if begins(text, "when "@) {
        assert(text[0] == 'w' || text[0] as int + 32 == 'w' as int);
    }
    if begins(text, "given "@) {
        assert(text[0] == 'g' || text[0] as int + 32 == 'g' as int);
    }
}

proof fn lemma_listed_lines(lines: Seq<Seq<char>>, i: int)
    requires
        0 <= i < line_listing(lines).len(),
    ensures
        ({
            let (depth, text, line) = line_listing(lines)[i];
            &&& 1 <= line <= lines.len()
            &&& entry_of(lines[line - 1]) == (Entry::Node { depth, text })
        }),
    decreases lines.len(),
{
    if lines.len() > 0 {
        let front = line_listing(lines.drop_last());
        if i < front.len() {
            lemma_listed_lines(lines.drop_last(), i);
        }
    }
}

proof fn lemma_listed_kinds(nodes: Seq<SpecNodeView>, depth: nat, i: int)
    requires
        well_formed(nodes),
        0 <= i < node_listing(nodes, depth).len(),
    ensures
        kind_of(node_listing(nodes, depth)[i].1) is Some,
        node_listing(nodes, depth)[i].0 >= depth,
    decreases nodes,
{
    if nodes.len() > 0 {
        let last = nodes.last();
        let front = node_listing(nodes.drop_last(), depth);
        if i < front.len() {
            lemma_listed_kinds(nodes.drop_last(), depth, i);
        } else if i > front.len() {
            lemma_listed_kinds(last.children, depth + 1, i - front.len() - 1);
        }
    }
}

proof fn lemma_tree_kinds(trees: Seq<SpecTreeView>, i: int)
    requires
        forall|k: int| 0 <= k < trees.len() ==> well_formed((#[trigger] trees[k]).children),
        0 <= i < tree_listing(trees).len(),
        tree_listing(trees)[i].0 > 0,
    ensures
        kind_of(tree_listing(trees)[i].1) is Some,
    decreases trees.len(),
{
    if trees.len() > 0 {
        let front = trees.drop_last();
        let before = tree_listing(front);
        assert forall|k: int| 0 <= k < front.len() implies well_formed(
            (#[trigger] front[k]).children,
        ) by {
            assert(front[k] == trees[k]);
        }
        if i < before.len() {
            lemma_tree_kinds(front, i);
        } else if i > before.len() {
            assert(trees[trees.len() - 1] == trees.last());
            lemma_listed_kinds(trees.last().children, 1, i - before.len() - 1);
        }
    }
}

/// Whatever a parsed file holds at a depth, with a text and a line, stands on
/// that line of the file, at that depth and character for character.
pub proof fn law_parsed_text_stands_in_its_line(source: Seq<char>, i: int)
    requires
        parsed(source) is Ok,
        0 <= i < tree_listing(parsed(source)->Ok_0).len(),
        tree_listing(parsed(source)->Ok_0)[i].0 > 0,
    ensures
        ({
            let (depth, text, line) = tree_listing(parsed(source)->Ok_0)[i];
            &&& 1 <= line <= text_lines(source).len()
            &&& is_branch_line(text_lines(source)[line - 1], depth, text)
            &&& stands_free(text)
        }),
{
    let trees = parsed(source)->Ok_0;
    let lines = text_lines(source);
    law_parsed_trees_list_the_lines(source);
    lemma_listed_lines(lines, i);
    assert forall|k: int| 0 <= k < trees.len() implies well_formed((#[trigger] trees[k]).children) by {
        law_parsed_trees_are_well_formed(source, k);
    }
    lemma_tree_kinds(trees, i);
    let (depth, text, line) = tree_listing(trees)[i];
    if text.len() == 0 {
        assert(text =~= Seq::<char>::empty());
        assert(is_ascii_text(text));
        law_keywords_name_the_kind(text);
    }
    law_branch_lines_hold_their_text(lines[line - 1]);
}

/// The number of the line that is open at a depth behind some lines: the last
/// one of that depth, unless the levels above were left since.
pub open spec fn open_line(lines: Seq<Seq<char>>, depth: nat) -> Option<nat>
    decreases lines.len(),
{
    if lines.len() == 0 {
        None
    } else {
        match entry_of(lines.last()) {
            Entry::Comment => open_line(lines.drop_last(), depth),
            Entry::Node { depth: d, .. } => if d == depth {
                Some(lines.len())
            } else if d > depth {
                open_line(lines.drop_last(), depth)
            } else {
                None
            },
            _ => None,
        }
    }
}

/// Whether a root line is among some lines.
pub open spec fn has_root(lines: Seq<Seq<char>>) -> bool {
    exists|i: int|
        0 <= i < lines.len() && (entry_of(#[trigger] lines[i]) matches Entry::Node { depth, .. }
            && depth == 0)
}

/// Whether a line can follow some lines: it is well formed, and if it is a
/// branch there is a root, its text names a kind, and below the first depth a
/// branch that is no leaf is open one level above it.
pub open spec fn can_follow(lines: Seq<Seq<char>>, raw: Seq<char>) -> bool {
    match entry_of(raw) {
        Entry::Malformed { .. } => false,
        Entry::Node { depth, text } => depth == 0 || {
            &&& has_root(lines)
            &&& kind_of(text) is Some
            &&& depth > 1 ==> (open_line(lines, (depth - 1) as nat) matches Some(line)
                && entry_of(lines[line - 1]) matches Entry::Node { text, .. } && kind_of(text)
                == Some(NodeKind::Condition))
        },
        _ => true,
    }
}

/// What has been read agrees with the lines: which depths are open, by which
/// lines, and whether there is a root.
spec fn read_agrees(p: Progress, lines: Seq<Seq<char>>) -> bool {
    &&& has_root(lines) <==> p.trees.len() > 0
    &&& forall|d: nat|
        d >= 1 ==> ((#[trigger] open_line(lines, d)) is Some <==> d <= p.open.len())
    &&& forall|d: int| 0 <= d < p.open.len() ==> opened_by(#[trigger] p.open[d], lines, d)
}

/// Whether a depth is open by the line, and with the kind, that was read.
spec fn opened_by(open: (NodeKind, nat), lines: Seq<Seq<char>>, d: int) -> bool {
    &&& open_line(lines, (d + 1) as nat) == Some(open.1)
    &&& 1 <= open.1 <= lines.len()
    &&& entry_of(lines[open.1 - 1]) matches Entry::Node { text, .. } && kind_of(text) == Some(
        open.0,
    )
}

proof fn lemma_has_root(lines: Seq<Seq<char>>)
    requires
        lines.len() > 0,
    ensures
        has_root(lines) <==> has_root(lines.drop_last()) || (entry_of(
            lines.last(),
        ) matches Entry::Node { depth, .. } && depth == 0),
{
    let front = lines.drop_last();
    if has_root(lines) {
        let i = choose|i: int|
            0 <= i < lines.len() && (entry_of(#[trigger] lines[i]) matches Entry::Node { depth, .. }
                && depth == 0);
        if i < front.len() {
            assert(front[i] == lines[i]);
        }
    }
    if has_root(front) {
        let i = choose|i: int|
            0 <= i < front.len() && (entry_of(#[trigger] front[i]) matches Entry::Node { depth, .. }
                && depth == 0);
        assert(lines[i] == front[i]);
    }
    assert(lines[lines.len() - 1] == lines.last());
}

proof fn lemma_read_agrees(lines: Seq<Seq<char>>)
    ensures
        read_lines(lines) matches Ok(p) ==> read_agrees(p, lines),
    decreases lines.len(),
{
    if lines.len() == 0 {
        let p = read_lines(lines)->Ok_0;
        assert(!has_root(lines));
        assert(read_agrees(p, lines));
    } else {
        let front = lines.drop_last();
        lemma_read_agrees(front);
        lemma_has_root(lines);
        if let Ok(p) = read_lines(lines) {
            let before = read_lines(front)->Ok_0;
            assert forall|d: int| 0 <= d < p.open.len() implies opened_by(
                #[trigger] p.open[d],
                lines,
                d,
            ) by {
                match entry_of(lines.last()) {
                    Entry::Comment => {
                        assert(before.open[d] == p.open[d]);
                        let line = open_line(front, (d + 1) as nat)->0;
                        assert(front[line - 1] == lines[line - 1]);
                    },
                    Entry::Node { depth, text } => {
                        if d + 1 < depth {
                            assert(before.open[d] == p.open[d]);
                            let line = open_line(front, (d + 1) as nat)->0;
                            assert(front[line - 1] == lines[line - 1]);
                        }
                    },
                    _ => {},
                }
            }
            assert forall|d: nat| d >= 1 implies ((#[trigger] open_line(lines, d)) is Some <==> d
                <= p.open.len()) by {
                let earlier = open_line(front, d);
            }
            assert(has_root(lines) <==> p.trees.len() > 0);
            assert(read_agrees(p, lines));
        }
    }
}

proof fn lemma_can_follow(lines: Seq<Seq<char>>, raw: Seq<char>)
    requires
        read_lines(lines) is Ok,
    ensures
        read_line(read_lines(lines)->Ok_0, (lines.len() + 1) as nat, raw) is Ok <==> can_follow(
            lines,
            raw,
        ),
{
    let p = read_lines(lines)->Ok_0;
    lemma_read_agrees(lines);
    match entry_of(raw) {
        Entry::Node { depth, text } => {
            if depth > 1 {
                let above = open_line(lines, (depth - 1) as nat);
                assert(above is Some <==> depth - 1 <= p.open.len());
                if above is Some {
                    assert(p.open[depth - 2].1 == above->0);
                    let kind = p.open[depth - 2].0;
                    assert(kind == NodeKind::Action || kind == NodeKind::Condition);
                }
            }
        },
        _ => {},
    }
}

proof fn lemma_readable(lines: Seq<Seq<char>>)
    ensures
        read_lines(lines) is Ok <==> forall|i: int|
            0 <= i < lines.len() ==> can_follow(lines.take(i), #[trigger] lines[i]),
    decreases lines.len(),
{
    if lines.len() > 0 {
        let front = lines.drop_last();
        let n = lines.len() - 1;
        lemma_readable(front);
        assert forall|i: int| 0 <= i < front.len() implies front.take(i) == lines.take(i)
            && front[i] == lines[i] by {
            assert(front.take(i) =~= lines.take(i));
        }
        assert(lines.take(n) =~= front);
        if read_lines(front) is Ok {
            lemma_can_follow(front, lines.last());
            assert forall|i: int| 0 <= i < front.len() implies can_follow(
                lines.take(i),
                #[trigger] lines[i],
            ) by {
                assert(can_follow(front.take(i), front[i]));
            }
            assert(lines[n] == lines.last());
        } else {
            let i = choose|i: int|
                0 <= i < front.len() && !can_follow(front.take(i), #[trigger] front[i]);
            assert(!can_follow(lines.take(i), lines[i]));
        }
    }
}

/// A file parses exactly when it has a root line and every line of it can follow
/// those before it.
pub proof fn law_files_parse_line_by_line(source: Seq<char>)
    ensures
        ({
            let lines = text_lines(source);
            parsed(source) is Ok <==> has_root(lines) && forall|i: int|
                0 <= i < lines.len() ==> can_follow(lines.take(i), #[trigger] lines[i])
        }),
{
    let lines = text_lines(source);
    lemma_readable(lines);
    lemma_read_agrees(lines);
}

/// The line that an error is about.
pub open spec fn error_line(e: ParseErrorView) -> Option<nat> {
    match e {
        ParseErrorView::BranchBeforeRoot { line } => Some(line),
        ParseErrorView::ActionWithChildren { line, .. } => Some(line),
        ParseErrorView::DepthJump { line, .. } => Some(line),
        ParseErrorView::UnknownKeyword { line, .. } => Some(line),
        ParseErrorView::MalformedPrefix { line, .. } => Some(line),
        ParseErrorView::Empty => None,
    }
}

/// What an error says of a line behind those before it.
pub open spec fn error_fits(e: ParseErrorView, lines: Seq<Seq<char>>, raw: Seq<char>) -> bool {
    match e {
        ParseErrorView::MalformedPrefix { text, .. } => entry_of(raw) == (Entry::Malformed { text }),
        ParseErrorView::BranchBeforeRoot { .. } => (entry_of(raw) matches Entry::Node { depth, .. }
            && depth > 0) && !has_root(lines),
        ParseErrorView::UnknownKeyword { text, .. } => (entry_of(raw) matches Entry::Node {
            depth,
            text: t,
        } && depth > 0 && t == text && kind_of(t) is None) && has_root(lines),
        ParseErrorView::DepthJump { from, to, .. } => (entry_of(raw) matches Entry::Node {
            depth,
            ..
        } && depth == to) && to > from + 1 && (from > 0 ==> open_line(lines, from) is Some)
            && open_line(lines, from + 1) is None,
        ParseErrorView::ActionWithChildren { parent_line, .. } => (entry_of(
            raw,
        ) matches Entry::Node { depth, .. } && depth > 1 && open_line(lines, (depth - 1) as nat)
            == Some(parent_line)) && (entry_of(lines[parent_line - 1]) matches Entry::Node {
            text,
            ..
        } && kind_of(text) == Some(NodeKind::Action)),
        ParseErrorView::Empty => false,
    }
}

proof fn lemma_first_error(lines: Seq<Seq<char>>)
    ensures
        read_lines(lines) matches Err(e) ==> {
            &&& error_line(e) matches Some(n) && 1 <= n <= lines.len() && read_lines(
                lines.take(n - 1),
            ) is Ok && error_fits(e, lines.take(n - 1), lines[n - 1])
        },
    decreases lines.len(),
{
    if lines.len() > 0 {
        let front = lines.drop_last();
        lemma_first_error(front);
        if let Err(e) = read_lines(lines) {
            if read_lines(front) is Err {
                let n = error_line(e)->0;
                assert(lines.take(n - 1) =~= front.take(n - 1));
                assert(lines[n - 1] == front[n - 1]);
            } else {
                let p = read_lines(front)->Ok_0;
                lemma_read_agrees(front);
                assert(lines.take(lines.len() - 1) =~= front);
                match entry_of(lines.last()) {
                    Entry::Node { depth, text } => {
                        if let ParseErrorView::DepthJump { from, to, .. } = e {
                            assert(open_line(front, from + 1) is Some <==> from + 1
                                <= p.open.len());
                            if from > 0 {
                                assert(open_line(front, from) is Some <==> from <= p.open.len());
                            }
                        }
                        if let ParseErrorView::ActionWithChildren { parent_line, .. } = e {
                            assert(p.open[depth - 2].1 == parent_line);
                        }
                    },
                    _ => {},
                }
            }
        }
    }
}

/// An error tells of the first line that cannot follow those before it, and of
/// what is wrong with it; only a file whose lines are all in order but hold no
/// root is empty.
pub proof fn law_errors_tell_of_the_first_bad_line(source: Seq<char>)
    requires
        parsed(source) is Err,
    ensures
        ({
            let e = parsed(source)->Err_0;
            let lines = text_lines(source);
            match error_line(e) {
                Some(n) => {
                    &&& 1 <= n <= lines.len()
                    &&& !can_follow(lines.take(n - 1), lines[n - 1])
                    &&& error_fits(e, lines.take(n - 1), lines[n - 1])
                    &&& forall|i: int|
                        0 <= i < n - 1 ==> can_follow(lines.take(i), #[trigger] lines[i])
                },
                None => !has_root(lines) && forall|i: int|
                    0 <= i < lines.len() ==> can_follow(lines.take(i), #[trigger] lines[i]),
            }
        }),
{
    let e = parsed(source)->Err_0;
    let lines = text_lines(source);
    lemma_first_error(lines);
    lemma_readable(lines);
    lemma_read_agrees(lines);
    if read_lines(lines) is Err {
        let n = error_line(e)->0;
        let front = lines.take(n - 1);
        lemma_readable(front);
        assert forall|i: int| 0 <= i < n - 1 implies can_follow(lines.take(i), #[trigger] lines[i]) by {
            assert(front.take(i) =~= lines.take(i));
            assert(can_follow(front.take(i), front[i]));
        }
        lemma_can_follow(front, lines[n - 1]);
        assert(lines.take(n as int).drop_last() =~= front);
        lemma_take_error(lines, n as int);
    }
}

proof fn lemma_take_error(lines: Seq<Seq<char>>, n: int)
    requires
        read_lines(lines) is Err,
        error_line(read_lines(lines)->Err_0) == Some(n as nat),
        1 <= n <= lines.len(),
    ensures
        read_line(read_lines(lines.take(n - 1))->Ok_0, n as nat, lines[n - 1]) is Err,
    decreases lines.len(),
{
    lemma_first_error(lines);
    let front = lines.drop_last();
    if read_lines(front) is Err {
        lemma_first_error(front);
        lemma_take_error(front, n);
        assert(front.take(n - 1) =~= lines.take(n - 1));
    } else {
        assert(lines.take(lines.len() - 1) =~= front);
        if n < lines.len() {
            assert(read_line(read_lines(front)->Ok_0, lines.len(), lines.last()) is Err);
        }
    }
}

/// The message of an error on a line starts with the number of the line.
pub proof fn law_messages_start_with_the_line(e: ParseErrorView, line: nat)
    requires
        match e {
            ParseErrorView::BranchBeforeRoot { line: at } => at == line,
            ParseErrorView::ActionWithChildren { line: at, .. } => at == line,
            ParseErrorView::DepthJump { line: at, .. } => at == line,
            ParseErrorView::UnknownKeyword { line: at, .. } => at == line,
            ParseErrorView::MalformedPrefix { line: at, .. } => at == line,
            ParseErrorView::Empty => false,
        },
    ensures
        ("line "@ + decimal_of(line) + ":"@).is_prefix_of(error_text(e)),
{
    reveal_strlit(":");
    reveal_strlit(": branch node before any root line");
    reveal_strlit(": `it` nodes cannot have children (parent at line ");
    reveal_strlit(": indentation jumps from depth ");
    reveal_strlit(": node must start with `when`, `given`, or `it`: ");
    reveal_strlit(": malformed tree prefix: ");
    let lead = "line "@ + decimal_of(line) + ":"@;
    assert(error_text(e).take(lead.len() as int) =~= lead);
}

proof fn lemma_deeper_is_no_root(s: Seq<char>, above: nat)
    requires
        above > 0,
    ensures
        placed_after(s, above) matches Some((depth, text)) ==> depth > 0,
    decreases s.len(),
{
    if connector_rest(s) is None {
        match level_rest(s) {
            Some(rest) => {
                if rest.len() < s.len() {
                    lemma_deeper_is_no_root(rest, above + 1);
                }
            },
            None => {},
        }
    }
}

/// A root line draws no branch: it starts neither with a group for a level above
/// nor with one that connects, is no comment, and its text is all of the line but
/// the white space around it.
pub proof fn law_root_lines_draw_no_branch(raw: Seq<char>)
    requires
        entry_of(raw) matches Entry::Node { depth, .. } && depth == 0,
    ensures
        entry_of(raw) matches Entry::Node { text, .. } && text == trimmed(raw) && text.len() > 0
            && !"//"@.is_prefix_of(text),
        raw.len() >= 4 && trimmed_end(raw).len() >= 4 ==> !is_level(raw.take(4)) && !is_connector(
            raw.take(4),
        ),
{
    reveal_strlit("├──");
    reveal_strlit("└──");
    reveal_strlit("│");
    reveal_strlit("    ");
    let text = trimmed_end(raw);
    lemma_end_parts(raw);
    match connector_rest(text) {
        Some(rest) => {},
        None => match level_rest(text) {
            Some(rest) => {
                if rest.len() < text.len() {
                    lemma_deeper_is_no_root(rest, 1);
                }
            },
            None => {
                lemma_end_off(text, Seq::empty());
                assert(text + Seq::<char>::empty() =~= text);
                assert(trimmed_end(text) == text);
                lemma_start_parts(text);
                if trimmed_start(text).len() == 0 {
                    assert(is_white(text[text.len() - 1])) by {
                        assert(text.take(text.len() as int)[text.len() - 1] == text[text.len() - 1]);
                    }
                }
                if text.len() >= 4 {
                    let head = raw.take(4);
                    assert(text.take(4) =~= head);
                    if is_level(head) {
                        if head == seq!['│', ' ', ' ', ' '] {
                            assert(text.take(1) =~= "│"@);
                            assert(text[1] == head[1] && text[2] == head[2] && text[3] == head[3]);
                            let rest = text.skip(1);
                            assert(rest[0] == ' ' && rest[1] == ' ' && rest[2] == ' ');
                            assert(group_rest(text, "│"@) is Some);
                        } else {
                            assert(head =~= "    "@);
                        }
                    }
                    if is_connector(head) {
                        assert(text[0] == head[0] && text[1] == head[1] && text[2] == head[2]
                            && text[3] == head[3]);
                        let rest = text.skip(3);
                        assert(rest[0] == ' ');
                        if head[0] == '├' {
                            assert(text.take(3) =~= "├──"@);
                            assert(group_rest(text, "├──"@) is Some);
                        } else {
                            assert(text.take(3) =~= "└──"@);
                            assert(group_rest(text, "└──"@) is Some);
                        }
                    }
                }
            },
        },
    }
}

/// Only white space is blank, only two slashes start a comment, and a line that
/// is malformed is told of as it stands, without the white space at its end.
pub proof fn law_other_lines_are_what_they_seem(raw: Seq<char>)
    ensures
        entry_of(raw) is Blank <==> all_white(raw),
        entry_of(raw) is Comment <==> trimmed(raw).len() >= 2 && trimmed(raw)[0] == '/' && trimmed(
            raw,
        )[1] == '/',
        entry_of(raw) matches Entry::Malformed { text } ==> text == trimmed_end(raw),
{
    reveal_strlit("//");
    lemma_end_parts(raw);
    let text = trimmed_end(raw);
    if text.len() == 0 {
        assert(raw.skip(0) =~= raw);
        assert(trimmed(raw).len() == 0);
    }
    if all_white(raw) && text.len() > 0 {
        assert(raw.take(text.len() as int)[text.len() - 1] == raw[text.len() - 1]);
    }
    let inner = trimmed_start(text);
    if inner.len() >= 2 && inner[0] == '/' && inner[1] == '/' {
        assert(inner.take(2) =~= "//"@);
    }
    if "//"@.is_prefix_of(inner) {
        assert(inner.take(2)[0] == '/' && inner.take(2)[1] == '/');
    }
}

} // verus!
