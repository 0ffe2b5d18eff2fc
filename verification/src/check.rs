//! Compare a spec tree against the actual structure extracted from a test
//! file, producing findings.

use vstd::prelude::*;
use crate::extract::{ActualKind, ActualNode};
use crate::mapping::{Mapping, RootMapping};
use crate::text::{concat3, owned, same, trim};
use crate::tree::{NodeKind, SpecNode, SpecTree};

verus! {

use crate::extract::{lemma_actual_children, tests_of, ActualView};
use crate::mapping::{name_for, MappingView};
use crate::text::{trimmed, views};
use crate::tree::{lemma_node_children, SpecNodeView, SpecTreeView};

broadcast use vstd::string::group_string_axioms;

/// A node of the *expected* structure: the spec tree with mapping rules
/// applied, i.e. what the test file should contain.
#[derive(Debug)]
pub struct Expected {
    /// Block or test.
    pub kind: ActualKind,
    /// Expected identifier / title in the source file.
    pub name: String,
    /// Original spec text (used by scaffold templates and messages).
    pub text: String,
    /// 1-based line in the `.tree` file.
    pub spec_line: usize,
    /// Expected children (always empty for tests).
    pub children: Vec<Expected>,
}

/// The model of an [`Expected`] node.
pub struct ExpectedView {
    pub kind: ActualKind,
    pub name: Seq<char>,
    pub text: Seq<char>,
    pub spec_line: nat,
    pub children: Seq<ExpectedView>,
}

pub open spec fn expected_view(node: Expected) -> ExpectedView
    decreases node,
{
    ExpectedView {
        kind: node.kind,
        name: node.name@,
        text: node.text@,
        spec_line: node.spec_line as nat,
        children: Seq::new(
            node.children@.len(),
            |i: int|
                if 0 <= i < node.children@.len() {
                    expected_view(node.children@[i])
                } else {
                    arbitrary()
                },
        ),
    }
}

impl View for Expected {
    type V = ExpectedView;

    open spec fn view(&self) -> ExpectedView {
        expected_view(*self)
    }
}

/// The children of a node's model are the models of its children.
pub broadcast proof fn lemma_expected_children(node: Expected)
    ensures
        #[trigger] expected_view(node).children == views(node.children@),
{
    assert(expected_view(node).children =~= views(node.children@));
}

impl Clone for Expected {
    fn clone(&self) -> (out: Self)
        ensures
            out@ == self@,
        decreases self,
    {
        let mut children: Vec<Expected> = Vec::new();
        let mut i: usize = 0;
        while i < self.children.len()
            invariant
                i <= self.children@.len(),
                views(children@) == views(self.children@).take(i as int),
            decreases self.children@.len() - i,
        {
            let ghost before = views(children@);
            let child = self.children[i].clone();
            children.push(child);
            i += 1;
            assert(views(children@) =~= before.push(child@));
            assert(views(self.children@).take(i as int) =~= before.push(
                views(self.children@)[i - 1],
            ));
        }
        assert(views(self.children@).take(i as int) =~= views(self.children@));
        let out = Expected {
            kind: self.kind,
            name: self.name.clone(),
            text: self.text.clone(),
            spec_line: self.spec_line,
            children,
        };
        proof {
            lemma_expected_children(*self);
            lemma_expected_children(out);
        }
        out
    }
}

/// What a test file should contain for the nodes of a spec: a block for each
/// condition and a test for each action, named by the mapping's rules.
pub open spec fn expected_nodes(nodes: Seq<SpecNodeView>, mapping: MappingView) -> Seq<ExpectedView>
    decreases nodes,
{
    if nodes.len() == 0 {
        Seq::empty()
    } else {
        let last = nodes.last();
        expected_nodes(nodes.drop_last(), mapping).push(
            ExpectedView {
                kind: match last.kind {
                    NodeKind::Condition => ActualKind::Block,
                    NodeKind::Action => ActualKind::Test,
                },
                name: match last.kind {
                    NodeKind::Condition => name_for(mapping.block, last.text),
                    NodeKind::Action => name_for(mapping.test, last.text),
                },
                text: last.text,
                spec_line: last.line,
                children: expected_nodes(last.children, mapping),
            },
        )
    }
}

/// What a test file should contain for the trees of a spec.
pub open spec fn expected_of(trees: Seq<SpecTreeView>, mapping: MappingView) -> Seq<ExpectedView>
    decreases trees.len(),
{
    if trees.len() == 0 {
        Seq::empty()
    } else {
        let last = trees.last();
        let before = expected_of(trees.drop_last(), mapping);
        let children = expected_nodes(last.children, mapping);
        match mapping.root {
            RootMapping::Block => before.push(
                ExpectedView {
                    kind: ActualKind::Block,
                    name: trimmed(last.root),
                    text: last.root,
                    spec_line: last.line,
                    children,
                },
            ),
            RootMapping::File => before + children,
        }
    }
}

fn expected_children(nodes: &Vec<SpecNode>, mapping: &Mapping) -> (out: Vec<Expected>)
    ensures
        views(out@) == expected_nodes(views(nodes@), mapping@),
    decreases nodes,
{
    let mut out: Vec<Expected> = Vec::new();
    let ghost all = views(nodes@);
    let mut i: usize = 0;
    assert(all.take(0) =~= Seq::empty());
    assert(views(out@) =~= Seq::empty());
    while i < nodes.len()
        invariant
            i <= nodes@.len(),
            all == views(nodes@),
            views(out@) == expected_nodes(all.take(i as int), mapping@),
        decreases nodes@.len() - i,
    {
        let ghost before = views(out@);
        assert(all.take(i + 1).drop_last() =~= all.take(i as int));
        let node = expected_node(&nodes[i], mapping);
        proof {
            lemma_node_children(nodes@[i as int]);
            lemma_expected_children(node);
        }
        out.push(node);
        assert(views(out@) =~= before.push(node@));
        i += 1;
    }
    assert(all.take(i as int) =~= all);
    out
}

fn expected_node(node: &SpecNode, mapping: &Mapping) -> (out: Expected)
    ensures
        out@ == (ExpectedView {
            kind: match node.kind {
                NodeKind::Condition => ActualKind::Block,
                NodeKind::Action => ActualKind::Test,
            },
            name: match node.kind {
                NodeKind::Condition => name_for(mapping@.block, node.text@),
                NodeKind::Action => name_for(mapping@.test, node.text@),
            },
            text: node.text@,
            spec_line: node.line as nat,
            children: expected_nodes(node@.children, mapping@),
        }),
    decreases node,
{
    proof {
        lemma_node_children(*node);
    }
    let children = expected_children(&node.children, mapping);
    let (kind, rule) = match node.kind {
        NodeKind::Condition => (ActualKind::Block, &mapping.block),
        NodeKind::Action => (ActualKind::Test, &mapping.test),
    };
    let out = Expected {
        kind,
        name: rule.apply(node.text.as_str()),
        text: node.text.clone(),
        spec_line: node.line,
        children,
    };
    proof {
        lemma_expected_children(out);
    }
    out
}

/// Build the expected structure for all trees in a file.
#[must_use]
pub fn expected_from_spec(trees: &[SpecTree], mapping: &Mapping) -> (out: Vec<Expected>)
    ensures
        views(out@) == expected_of(views(trees@), mapping@),
{
    let mut out: Vec<Expected> = Vec::new();
    let ghost all = views(trees@);
    let mut i: usize = 0;
    assert(all.take(0) =~= Seq::empty());
    assert(views(out@) =~= Seq::empty());
    while i < trees.len()
        invariant
            i <= trees@.len(),
            all == views(trees@),
            views(out@) == expected_of(all.take(i as int), mapping@),
        decreases trees@.len() - i,
    {
        let tree = &trees[i];
        let ghost before = views(out@);
        assert(all.take(i + 1).drop_last() =~= all.take(i as int));
        let mut children = expected_children(&tree.children, mapping);
        match mapping.root {
            RootMapping::Block => {
                let node = Expected {
                    kind: ActualKind::Block,
                    name: trim(tree.root.as_str()),
                    text: tree.root.clone(),
                    spec_line: tree.line,
                    children,
                };
                proof {
                    lemma_expected_children(node);
                }
                out.push(node);
                assert(views(out@) =~= before.push(node@));
            },
            RootMapping::File => {
                let ghost added = views(children@);
                out.append(&mut children);
                assert(views(out@) =~= before + added);
            },
        }
        i += 1;
    }
    assert(all.take(i as int) =~= all);
    out
}

/// The nodes with the children of each wrapper block in the wrapper's place.
pub open spec fn unwrapped(nodes: Seq<ActualView>, wrappers: Seq<Seq<char>>) -> Seq<ActualView>
    decreases nodes,
{
    if nodes.len() == 0 {
        Seq::empty()
    } else {
        let last = nodes.last();
        let before = unwrapped(nodes.drop_last(), wrappers);
        let children = unwrapped(last.children, wrappers);
        if last.kind == ActualKind::Block && wrappers.contains(last.name) {
            before + children
        } else {
            before.push(ActualView { children, ..last })
        }
    }
}

/// Whether a text is among the given ones.
pub fn is_among(items: &[String], text: &str) -> (yes: bool)
    ensures
        yes == views(items@).contains(text@),
{
    let mut i: usize = 0;
    while i < items.len()
        invariant
            i <= items@.len(),
            forall|j: int| 0 <= j < i ==> views(items@)[j] != text@,
        decreases items@.len() - i,
    {
        if same(items[i].as_str(), text) {
            assert(views(items@)[i as int] == text@);
            return true;
        }
        i += 1;
    }
    false
}

/// Splice out transparent wrapper blocks (e.g. Rust's `mod tests`).
#[must_use]
pub fn unwrap_wrappers(nodes: Vec<ActualNode>, wrappers: &[String]) -> (out: Vec<ActualNode>)
    ensures
        views(out@) == unwrapped(views(nodes@), views(wrappers@)),
    decreases nodes,
{
    let mut out: Vec<ActualNode> = Vec::new();
    let ghost all = views(nodes@);
    assert(all.take(0) =~= Seq::empty());
    assert(views(out@) =~= Seq::empty());
    for n in it: nodes
        invariant
            it.seq() == nodes@,
            all == views(nodes@),
            views(out@) == unwrapped(all.take(it.index() as int), views(wrappers@)),
    {
        let ghost k = it.index() as int;
        let ghost before = views(out@);
        proof {
            assert(all.take(k + 1).drop_last() =~= all.take(k));
            assert(n == nodes@[k]);
            lemma_actual_children(n);
        }
        let mut children = unwrap_wrappers(n.children, wrappers);
        if n.kind == ActualKind::Block && is_among(wrappers, n.name.as_str()) {
            let ghost added = views(children@);
            out.append(&mut children);
            assert(views(out@) =~= before + added);
        } else {
            let kept = ActualNode { kind: n.kind, name: n.name, line: n.line, children };
            proof {
                lemma_actual_children(kept);
            }
            out.push(kept);
            assert(views(out@) =~= before.push(kept@));
        }
    }
    assert(all.take(all.len() as int) =~= all);
    out
}

/// One discrepancy between a spec tree and a test file.
#[derive(Debug, Clone, PartialEq, Eq)]
#[non_exhaustive]
pub enum Finding {
    /// The spec describes this node but the file does not contain it.
    Missing {
        /// Block or test.
        kind: ActualKind,
        /// Human path to the node, e.g. "when_the_key_is_absent > returns_none".
        path: String,
        /// 1-based line in the `.tree` file.
        spec_line: usize,
    },
    /// The file contains this node but the spec does not describe it.
    Extra {
        /// Block or test.
        kind: ActualKind,
        /// Human path to the node.
        path: String,
        /// 1-based line in the target file.
        target_line: usize,
    },
    /// Sibling order in the file differs from the spec.
    OutOfOrder {
        /// Path of the parent whose children are out of order.
        path: String,
    },
    /// The file contains a construct that no tree can represent.
    Unsupported {
        /// 1-based line in the target file.
        target_line: usize,
    },
    /// The file still contains a scaffold marker.
    Todo {
        /// 1-based line of the marker in the target file.
        target_line: usize,
        /// 1-based line of the test the marker stands in, if any.
        test_line: Option<usize>,
    },
}

/// The model of a [`Finding`].
pub enum FindingView {
    Missing { kind: ActualKind, path: Seq<char>, spec_line: nat },
    Extra { kind: ActualKind, path: Seq<char>, target_line: nat },
    OutOfOrder { path: Seq<char> },
    Unsupported { target_line: nat },
    Todo { target_line: nat, test_line: Option<nat> },
}

impl View for Finding {
    type V = FindingView;

    open spec fn view(&self) -> FindingView {
        match *self {
            Finding::Missing { kind, path, spec_line } => FindingView::Missing {
                kind,
                path: path@,
                spec_line: spec_line as nat,
            },
            Finding::Extra { kind, path, target_line } => FindingView::Extra {
                kind,
                path: path@,
                target_line: target_line as nat,
            },
            Finding::OutOfOrder { path } => FindingView::OutOfOrder { path: path@ },
            Finding::Unsupported { target_line } => FindingView::Unsupported {
                target_line: target_line as nat,
            },
            Finding::Todo { target_line, test_line } => FindingView::Todo {
                target_line: target_line as nat,
                test_line: match test_line {
                    Some(line) => Some(line as nat),
                    None => None,
                },
            },
        }
    }
}

/// The path of the node `name` below `path`.
pub open spec fn path_to(path: Seq<char>, name: Seq<char>) -> Seq<char> {
    if path.len() == 0 {
        name
    } else {
        path + " > "@ + name
    }
}

/// Whether an actual node is the one a spec expects.
pub open spec fn fits(e: ExpectedView, a: ActualView) -> bool {
    a.kind == e.kind && trimmed(a.name) == e.name
}

/// The first actual node at or after `from` that fits and is not taken.
pub open spec fn first_free(
    e: ExpectedView,
    actual: Seq<ActualView>,
    taken: Seq<Option<int>>,
    from: int,
) -> Option<int>
    decreases actual.len() - from,
{
    if from < 0 || from >= actual.len() {
        None
    } else if fits(e, actual[from]) && !taken.contains(Some(from)) {
        Some(from)
    } else {
        first_free(e, actual, taken, from + 1)
    }
}

/// Which actual node each expected node is: in turn, the first that fits and
/// that no earlier expected node has taken.
pub open spec fn pairing(expected: Seq<ExpectedView>, actual: Seq<ActualView>) -> Seq<Option<int>>
    decreases expected.len(),
{
    if expected.len() == 0 {
        Seq::empty()
    } else {
        let taken = pairing(expected.drop_last(), actual);
        taken.push(first_free(expected.last(), actual, taken, 0))
    }
}

/// Whether the expected nodes that were found stand in the order of the spec.
pub open spec fn in_spec_order(taken: Seq<Option<int>>) -> bool {
    forall|i: int, j: int|
        0 <= i < j < taken.len() && (#[trigger] taken[i]) is Some && (#[trigger] taken[j]) is Some
            ==> taken[i]->0 <= taken[j]->0
}

/// The findings for the actual nodes that no expected node is, among the
/// first `n`.
pub open spec fn extras(
    actual: Seq<ActualView>,
    taken: Seq<Option<int>>,
    path: Seq<char>,
    n: nat,
) -> Seq<FindingView>
    decreases n,
{
    if n == 0 {
        Seq::empty()
    } else {
        let i = n - 1;
        let before = extras(actual, taken, path, (n - 1) as nat);
        if taken.contains(Some(i)) {
            before
        } else {
            before.push(
                FindingView::Extra {
                    kind: actual[i].kind,
                    path: path_to(path, actual[i].name),
                    target_line: actual[i].line,
                },
            )
        }
    }
}

/// The findings for the first `n` expected nodes and what they contain.
pub open spec fn expected_findings(
    expected: Seq<ExpectedView>,
    actual: Seq<ActualView>,
    taken: Seq<Option<int>>,
    path: Seq<char>,
    n: nat,
) -> Seq<FindingView>
    decreases expected, n,
{
    if n == 0 || n > expected.len() {
        Seq::empty()
    } else {
        let e = expected[n - 1];
        let before = expected_findings(expected, actual, taken, path, (n - 1) as nat);
        match taken[n - 1] {
            None => before.push(
                FindingView::Missing {
                    kind: e.kind,
                    path: path_to(path, e.name),
                    spec_line: e.spec_line,
                },
            ),
            Some(i) => match e.kind {
                ActualKind::Test => before,
                ActualKind::Block => before + level_findings(
                    e.children,
                    actual[i].children,
                    path_to(path, e.name),
                ),
            },
        }
    }
}

/// The findings of one level of siblings and of everything below it: what is
/// missing, then whether the order differs, then what is extra.
pub open spec fn level_findings(
    expected: Seq<ExpectedView>,
    actual: Seq<ActualView>,
    path: Seq<char>,
) -> Seq<FindingView>
    decreases expected, expected.len() + 1,
{
    let taken = pairing(expected, actual);
    let found = expected_findings(expected, actual, taken, path, expected.len());
    let order = if in_spec_order(taken) {
        Seq::empty()
    } else {
        seq![
            FindingView::OutOfOrder {
                path: if path.len() == 0 {
                    "(top level)"@
                } else {
                    path
                },
            },
        ]
    };
    found + order + extras(actual, taken, path, actual.len())
}

/// Every discrepancy between what a spec expects and what a file contains.
pub open spec fn findings_of(expected: Seq<ExpectedView>, actual: Seq<ActualView>) -> Seq<
    FindingView,
> {
    level_findings(expected, actual, Seq::empty())
}

fn join(path: &str, name: &str) -> (out: String)
    ensures
        out@ == path_to(path@, name@),
{
    if path.is_empty() {
        owned(name)
    } else {
        concat3(path, " > ", name)
    }
}

proof fn lemma_first_free(
    e: ExpectedView,
    actual: Seq<ActualView>,
    taken: Seq<Option<int>>,
    from: int,
)
    requires
        0 <= from,
    ensures
        match first_free(e, actual, taken, from) {
            Some(i) => from <= i < actual.len() && fits(e, actual[i]) && !taken.contains(Some(i))
                && forall|j: int|
                from <= j < i ==> !(fits(e, #[trigger] actual[j]) && !taken.contains(Some(j))),
            None => forall|j: int|
                from <= j < actual.len() ==> !(fits(e, #[trigger] actual[j]) && !taken.contains(
                    Some(j),
                )),
        },
    decreases actual.len() - from,
{
    if from < actual.len() && !(fits(e, actual[from]) && !taken.contains(Some(from))) {
        lemma_first_free(e, actual, taken, from + 1);
    }
}

/// Whether `used` marks exactly the taken actual nodes.
spec fn marks(used: Seq<bool>, taken: Seq<Option<int>>) -> bool {
    forall|i: int| 0 <= i < used.len() ==> (#[trigger] used[i] <==> taken.contains(Some(i)))
}

fn find_free(exp: &Expected, actual: &[ActualNode], used: &Vec<bool>, taken: Ghost<Seq<Option<int>>>) -> (found:
    Option<usize>)
    requires
        used@.len() == actual@.len(),
        marks(used@, taken@),
    ensures
        match found {
            Some(i) => i < actual@.len() && first_free(exp@, views(actual@), taken@, 0) == Some(
                i as int,
            ),
            None => first_free(exp@, views(actual@), taken@, 0) is None,
        },
{
    let ghost all = views(actual@);
    let mut i: usize = 0;
    while i < actual.len()
        invariant
            i <= actual@.len(),
            used@.len() == actual@.len(),
            all == views(actual@),
            marks(used@, taken@),
            first_free(exp@, all, taken@, i as int) == first_free(exp@, all, taken@, 0),
        decreases actual@.len() - i,
    {
        let a = &actual[i];
        assert(used@[i as int] <==> taken@.contains(Some(i as int)));
        if !used[i] && a.kind == exp.kind && same(trim(a.name.as_str()).as_str(), exp.name.as_str()) {
            return Some(i);
        }
        i += 1;
    }
    None
}

proof fn lemma_pairing_len(expected: Seq<ExpectedView>, actual: Seq<ActualView>)
    ensures
        pairing(expected, actual).len() == expected.len(),
    decreases expected.len(),
{
    if expected.len() > 0 {
        lemma_pairing_len(expected.drop_last(), actual);
    }
}

/// The pairing of a prefix is a prefix of the pairing.
proof fn lemma_pairing_prefix(expected: Seq<ExpectedView>, actual: Seq<ActualView>, n: int)
    requires
        0 <= n <= expected.len(),
    ensures
        pairing(expected.take(n), actual) == pairing(expected, actual).take(n),
    decreases expected.len() - n,
{
    lemma_pairing_len(expected, actual);
    if n < expected.len() {
        lemma_pairing_prefix(expected.drop_last(), actual, n);
        assert(expected.drop_last().take(n) =~= expected.take(n));
        assert(pairing(expected, actual).take(n) =~= pairing(expected.drop_last(), actual).take(n));
    } else {
        assert(expected.take(n) =~= expected);
        assert(pairing(expected, actual).take(n) =~= pairing(expected, actual));
    }
}

fn diff_level(expected: &[Expected], actual: &[ActualNode], path: &str, out: &mut Vec<Finding>)
    ensures
        views(final(out)@) == views(old(out)@) + level_findings(
            views(expected@),
            views(actual@),
            path@,
        ),
    decreases expected@,
{
    let ghost start = views(out@);
    let ghost es = views(expected@);
    let ghost acts = views(actual@);
    let ghost taken = pairing(es, acts);
    let mut used: Vec<bool> = Vec::new();
    let mut k: usize = 0;
    while k < actual.len()
        invariant
            k <= actual@.len(),
            used@.len() == k,
            forall|j: int| 0 <= j < k ==> !used@[j],
        decreases actual@.len() - k,
    {
        used.push(false);
        k += 1;
    }
    // The last position that was matched, and whether all came in order.
    let mut last: Option<usize> = None;
    let mut ordered = true;
    let mut n: usize = 0;
    proof {
        lemma_pairing_len(es, acts);
        assert(taken.take(0) =~= Seq::empty());
        assert(start + Seq::<FindingView>::empty() =~= start);
    }
    while n < expected.len()
        invariant
            n <= expected@.len(),
            es == views(expected@),
            acts == views(actual@),
            taken == pairing(es, acts),
            taken.len() == es.len(),
            used@.len() == actual@.len(),
            marks(used@, taken.take(n as int)),
            views(out@) == start + expected_findings(es, acts, taken, path@, n as nat),
            ordered == in_spec_order(taken.take(n as int)),
            last is None <==> (forall|i: int| 0 <= i < n ==> taken[i] is None),
            last matches Some(p) ==> ordered ==> forall|i: int|
                0 <= i < n && (#[trigger] taken[i]) is Some ==> taken[i]->0 <= p,
            last matches Some(p) ==> exists|i: int|
                0 <= i < n && #[trigger] taken[i] == Some(p as int),
        decreases expected@.len() - n,
    {
        let exp = &expected[n];
        let ghost now = taken.take(n as int);
        let ghost before = views(out@);
        proof {
            lemma_pairing_prefix(es, acts, n as int);
            lemma_pairing_prefix(es, acts, n + 1);
            assert(es.take(n + 1).drop_last() =~= es.take(n as int));
            assert(taken.take(n + 1) =~= now.push(taken[n as int]));
            assert(taken.take(n + 1).last() == taken[n as int]);
            assert(taken[n as int] == first_free(exp@, acts, now, 0));
            lemma_expected_children(*exp);
        }
        match find_free(exp, actual, &used, Ghost(now)) {
            Some(i) => {
                let ghost old_used = used@;
                used.set(i, true);
                let in_turn = match last {
                    Some(p) => p <= i,
                    None => true,
                };
                proof {
                    lemma_actual_children(actual@[i as int]);
                    let next = taken.take(n + 1);
                    assert forall|j: int| 0 <= j < used@.len() implies (#[trigger] used@[j]
                        <==> next.contains(Some(j))) by {
                        if j == i {
                            assert(next[n as int] == Some(j));
                        } else {
                            assert(old_used[j] <==> now.contains(Some(j)));
                            if now.contains(Some(j)) {
                                let w = choose|w: int| 0 <= w < now.len() && now[w] == Some(j);
                                assert(next[w] == Some(j));
                            }
                            if next.contains(Some(j)) {
                                let w = choose|w: int| 0 <= w < next.len() && next[w] == Some(j);
                                assert(w < n);
                                assert(now[w] == Some(j));
                            }
                        }
                    }
                    assert(in_spec_order(next) == (ordered && in_turn)) by {
                        lemma_order_step(taken, n as int, i as int, last, ordered);
                    }
                }
                ordered = ordered && in_turn;
                last = Some(i);
                match exp.kind {
                    ActualKind::Block => {
                        let below = join(path, exp.name.as_str());
                        diff_level(&exp.children, &actual[i].children, below.as_str(), out);
                        assert(views(out@) =~= start + expected_findings(
                            es,
                            acts,
                            taken,
                            path@,
                            (n + 1) as nat,
                        ));
                    },
                    ActualKind::Test => {},
                }
            },
            None => {
                let finding = Finding::Missing {
                    kind: exp.kind,
                    path: join(path, exp.name.as_str()),
                    spec_line: exp.spec_line,
                };
                out.push(finding);
                proof {
                    assert(views(out@) =~= before.push(finding@));
                    let next = taken.take(n + 1);
                    assert forall|j: int| 0 <= j < used@.len() implies (#[trigger] used@[j]
                        <==> next.contains(Some(j))) by {
                        assert(used@[j] <==> now.contains(Some(j)));
                        if now.contains(Some(j)) {
                            let w = choose|w: int| 0 <= w < now.len() && now[w] == Some(j);
                            assert(next[w] == Some(j));
                        }
                        if next.contains(Some(j)) {
                            let w = choose|w: int| 0 <= w < next.len() && next[w] == Some(j);
                            assert(w < n);
                            assert(now[w] == Some(j));
                        }
                    }
                    assert(in_spec_order(next) == in_spec_order(now)) by {
                        assert forall|a: int, b: int|
                            in_spec_order(now) && 0 <= a < b < next.len() && (
                            #[trigger] next[a]) is Some && (#[trigger] next[b])
                                is Some implies next[a]->0 <= next[b]->0 by {
                            assert(b < n);
                            assert(now[a] == next[a] && now[b] == next[b]);
                        }
                        assert forall|a: int, b: int|
                            in_spec_order(next) && 0 <= a < b < now.len() && (#[trigger] now[a])
                                is Some && (#[trigger] now[b]) is Some implies now[a]->0
                            <= now[b]->0 by {
                            assert(now[a] == next[a] && now[b] == next[b]);
                        }
                    }
                    assert(views(out@) =~= start + expected_findings(
                        es,
                        acts,
                        taken,
                        path@,
                        (n + 1) as nat,
                    ));
                }
            },
        }
        n += 1;
    }
    assert(taken.take(n as int) =~= taken);
    let ghost found = expected_findings(es, acts, taken, path@, es.len());
    if !ordered {
        let ghost before = views(out@);
        let finding = Finding::OutOfOrder {
            path: if path.is_empty() {
                owned("(top level)")
            } else {
                owned(path)
            },
        };
        out.push(finding);
        assert(views(out@) =~= before.push(finding@));
    }
    let ghost order = if in_spec_order(taken) {
        Seq::<FindingView>::empty()
    } else {
        seq![
            FindingView::OutOfOrder {
                path: if path@.len() == 0 {
                    "(top level)"@
                } else {
                    path@
                },
            },
        ]
    };
    assert(views(out@) =~= start + (found + order));
    let ghost head = found + order;
    assert(start + (head + Seq::<FindingView>::empty()) =~= start + head);
    let mut i: usize = 0;
    while i < actual.len()
        invariant
            i <= actual@.len(),
            acts == views(actual@),
            used@.len() == actual@.len(),
            marks(used@, taken),
            views(out@) == start + (head + extras(acts, taken, path@, i as nat)),
        decreases actual@.len() - i,
    {
        let ghost before = views(out@);
        assert(used@[i as int] <==> taken.contains(Some(i as int)));
        if !used[i] {
            let a = &actual[i];
            let finding = Finding::Extra {
                kind: a.kind,
                path: join(path, a.name.as_str()),
                target_line: a.line,
            };
            out.push(finding);
            assert(views(out@) =~= before.push(finding@));
        }
        i += 1;
        assert(views(out@) =~= start + (head + extras(acts, taken, path@, i as nat)));
    }
}

proof fn lemma_order_step(
    taken: Seq<Option<int>>,
    n: int,
    i: int,
    last: Option<usize>,
    ordered: bool,
)
    requires
        0 <= n < taken.len(),
        taken[n] == Some(i),
        ordered == in_spec_order(taken.take(n)),
        last is None <==> (forall|j: int| 0 <= j < n ==> taken[j] is None),
        last matches Some(p) ==> ordered ==> forall|j: int|
            0 <= j < n && (#[trigger] taken[j]) is Some ==> taken[j]->0 <= p,
        last matches Some(p) ==> exists|j: int| 0 <= j < n && #[trigger] taken[j] == Some(p as int),
    ensures
        in_spec_order(taken.take(n + 1)) == (ordered && (last matches Some(p) ==> p <= i)),
{
    let now = taken.take(n);
    let next = taken.take(n + 1);
    if in_spec_order(next) {
        assert forall|a: int, b: int|
            0 <= a < b < now.len() && (#[trigger] now[a]) is Some && (#[trigger] now[b])
                is Some implies now[a]->0 <= now[b]->0 by {
            assert(now[a] == next[a] && now[b] == next[b]);
        }
        if let Some(p) = last {
            let j = choose|j: int| 0 <= j < n && #[trigger] taken[j] == Some(p as int);
            assert(next[j] == Some(p as int) && next[n] == Some(i));
        }
    }
    if ordered && (last matches Some(p) ==> p <= i) {
        assert forall|a: int, b: int|
            0 <= a < b < next.len() && (#[trigger] next[a]) is Some && (#[trigger] next[b])
                is Some implies next[a]->0 <= next[b]->0 by {
            assert(next[a] == taken[a] && next[b] == taken[b]);
            if b < n {
                assert(now[a] == next[a] && now[b] == next[b]);
            } else {
                assert(last is Some);
            }
        }
    }
}

/// Diff expected vs actual structure.
#[must_use]
pub fn diff(expected: &[Expected], actual: &[ActualNode]) -> (out: Vec<Finding>)
    ensures
        views(out@) == findings_of(views(expected@), views(actual@)),
{
    let mut findings: Vec<Finding> = Vec::new();
    proof {
        reveal_strlit("");
        assert(""@ =~= Seq::empty());
        assert(views(findings@) =~= Seq::empty());
    }
    diff_level(expected, actual, "", &mut findings);
    assert(Seq::<FindingView>::empty() + findings_of(views(expected@), views(actual@))
        =~= findings_of(views(expected@), views(actual@)));
    findings
}

/// Whether a file contains exactly what a spec expects: the same nodes in the
/// same order, at every depth.
pub open spec fn agrees(expected: Seq<ExpectedView>, actual: Seq<ActualView>) -> bool
    decreases expected,
{
    &&& expected.len() == actual.len()
    &&& expected.len() > 0 ==> {
        &&& agrees(expected.drop_last(), actual.drop_last())
        &&& fits(expected.last(), actual.last())
        &&& expected.last().kind == ActualKind::Block ==> agrees(
            expected.last().children,
            actual.last().children,
        )
    }
}

/// [`agrees`], position by position.
proof fn lemma_agrees_at(expected: Seq<ExpectedView>, actual: Seq<ActualView>)
    ensures
        agrees(expected, actual) <==> {
            &&& expected.len() == actual.len()
            &&& forall|i: int|
                0 <= i < expected.len() ==> fits(#[trigger] expected[i], actual[i]) && (
                expected[i].kind == ActualKind::Block ==> agrees(
                    expected[i].children,
                    actual[i].children,
                ))
        },
    decreases expected.len(),
{
    if expected.len() == actual.len() && expected.len() > 0 {
        let e = expected.drop_last();
        let a = actual.drop_last();
        lemma_agrees_at(e, a);
        assert forall|i: int| 0 <= i < e.len() implies e[i] == expected[i] && a[i] == actual[i] by {}
        if agrees(expected, actual) {
            assert forall|i: int| 0 <= i < expected.len() implies fits(
                #[trigger] expected[i],
                actual[i],
            ) && (expected[i].kind == ActualKind::Block ==> agrees(
                expected[i].children,
                actual[i].children,
            )) by {
                if i < e.len() {
                    assert(fits(e[i], a[i]));
                }
            }
        }
        if forall|i: int|
            0 <= i < expected.len() ==> fits(#[trigger] expected[i], actual[i]) && (
            expected[i].kind == ActualKind::Block ==> agrees(
                expected[i].children,
                actual[i].children,
            )) {
            assert forall|i: int| 0 <= i < e.len() implies fits(#[trigger] e[i], a[i]) && (
            e[i].kind == ActualKind::Block ==> agrees(e[i].children, a[i].children)) by {
                assert(fits(expected[i], actual[i]));
            }
            let last = expected.len() - 1;
            assert(fits(expected[last], actual[last]));
        }
    }
}

/// What the pairing gives each expected node fits it, lies in the file, and
/// is given to no other.
proof fn lemma_pairing_sound(expected: Seq<ExpectedView>, actual: Seq<ActualView>)
    ensures
        ({
            let taken = pairing(expected, actual);
            &&& taken.len() == expected.len()
            &&& forall|i: int|
                0 <= i < taken.len() && (#[trigger] taken[i]) is Some ==> 0 <= taken[i]->0
                    < actual.len() && fits(expected[i], actual[taken[i]->0])
            &&& forall|i: int, j: int|
                0 <= i < j < taken.len() && (#[trigger] taken[i]) is Some && (#[trigger] taken[j])
                    is Some ==> taken[i]->0 != taken[j]->0
        }),
    decreases expected.len(),
{
    if expected.len() > 0 {
        let before = pairing(expected.drop_last(), actual);
        lemma_pairing_sound(expected.drop_last(), actual);
        lemma_first_free(expected.last(), actual, before, 0);
        let taken = pairing(expected, actual);
        assert forall|i: int| 0 <= i < taken.len() && (#[trigger] taken[i]) is Some implies 0
            <= taken[i]->0 < actual.len() && fits(expected[i], actual[taken[i]->0]) by {
            if i < before.len() {
                assert(before[i] == taken[i]);
                assert(expected.drop_last()[i] == expected[i]);
            }
        }
        assert forall|i: int, j: int|
            0 <= i < j < taken.len() && (#[trigger] taken[i]) is Some && (#[trigger] taken[j])
                is Some implies taken[i]->0 != taken[j]->0 by {
            assert(before[i] == taken[i]);
            if j < before.len() {
                assert(before[j] == taken[j]);
            } else {
                assert(!before.contains(Some(taken[j]->0)));
                assert(before[i] == Some(taken[i]->0));
            }
        }
    }
}

proof fn lemma_pairing_of_agreement(expected: Seq<ExpectedView>, actual: Seq<ActualView>, n: int)
    requires
        0 <= n <= expected.len(),
        agrees(expected, actual),
    ensures
        pairing(expected.take(n), actual).len() == n,
        forall|i: int|
            0 <= i < n ==> #[trigger] pairing(expected.take(n), actual)[i] == Some(i),
    decreases n,
{
    lemma_pairing_len(expected.take(n), actual);
    if n > 0 {
        lemma_pairing_of_agreement(expected, actual, n - 1);
        lemma_agrees_at(expected, actual);
        let before = pairing(expected.take(n - 1), actual);
        assert(expected.take(n).drop_last() =~= expected.take(n - 1));
        let e = expected[n - 1];
        assert(expected.take(n).last() == e);
        lemma_first_free(e, actual, before, 0);
        assert(fits(e, actual[n - 1]));
        assert(!before.contains(Some(n - 1)));
        assert forall|j: int| 0 <= j < n - 1 implies before.contains(Some(j)) by {
            assert(before[j] == Some(j));
        }
        assert(first_free(e, actual, before, 0) == Some(n - 1));
        assert forall|i: int| 0 <= i < n implies #[trigger] pairing(expected.take(n), actual)[i]
            == Some(i) by {
            if i < n - 1 {
                assert(before[i] == Some(i));
            }
        }
    }
}

/// The findings of the first `n` expected nodes are none exactly when each
/// was found and nothing was found below it.
proof fn lemma_expected_findings_empty(
    expected: Seq<ExpectedView>,
    actual: Seq<ActualView>,
    taken: Seq<Option<int>>,
    path: Seq<char>,
    n: nat,
)
    requires
        n <= expected.len(),
        taken.len() == expected.len(),
    ensures
        expected_findings(expected, actual, taken, path, n).len() == 0 <==> forall|i: int|
            0 <= i < n ==> (#[trigger] taken[i]) is Some && (expected[i].kind == ActualKind::Block
                ==> level_findings(
                expected[i].children,
                actual[taken[i]->0].children,
                path_to(path, expected[i].name),
            ).len() == 0),
    decreases n,
{
    if n > 0 {
        lemma_expected_findings_empty(expected, actual, taken, path, (n - 1) as nat);
        let i = n - 1;
        if expected_findings(expected, actual, taken, path, n).len() == 0 {
            assert(taken[i] is Some);
        } else {
            if forall|i: int|
                0 <= i < n ==> (#[trigger] taken[i]) is Some && (expected[i].kind
                    == ActualKind::Block ==> level_findings(
                    expected[i].children,
                    actual[taken[i]->0].children,
                    path_to(path, expected[i].name),
                ).len() == 0) {
                assert(taken[i] is Some);
                assert(expected_findings(expected, actual, taken, path, (n - 1) as nat).len() == 0);
            }
        }
    }
}

proof fn lemma_extras_empty(
    actual: Seq<ActualView>,
    taken: Seq<Option<int>>,
    path: Seq<char>,
    n: nat,
)
    ensures
        extras(actual, taken, path, n).len() == 0 <==> forall|i: int|
            0 <= i < n ==> #[trigger] taken.contains(Some(i)),
    decreases n,
{
    if n > 0 {
        lemma_extras_empty(actual, taken, path, (n - 1) as nat);
        let i = n - 1;
        if forall|i: int| 0 <= i < n ==> #[trigger] taken.contains(Some(i)) {
            assert(taken.contains(Some(i)));
        }
    }
}

/// A pairing that is complete on both sides and in order gives each expected
/// node the actual node at its own position.
proof fn lemma_ordered_pairing(taken: Seq<Option<int>>, m: nat)
    requires
        in_spec_order(taken),
        forall|i: int|
            0 <= i < taken.len() ==> (#[trigger] taken[i]) is Some && 0 <= taken[i]->0 < m,
        forall|i: int, j: int|
            0 <= i < j < taken.len() && (#[trigger] taken[i]) is Some && (#[trigger] taken[j])
                is Some ==> taken[i]->0 != taken[j]->0,
        forall|i: int| 0 <= i < m ==> #[trigger] taken.contains(Some(i)),
    ensures
        taken.len() == m,
        forall|i: int| 0 <= i < taken.len() ==> #[trigger] taken[i] == Some(i),
{
    assert forall|i: int| 0 <= i < taken.len() implies (#[trigger] taken[i])->0 >= i by {
        lemma_ordered_pairing_grows(taken, i);
    }
    assert forall|i: int| 0 <= i < taken.len() implies #[trigger] taken[i] == Some(i) by {
        lemma_ordered_pairing_at(taken, m, i);
    }
    if taken.len() > m {
        assert(taken[m as int]->0 >= m);
    }
    if taken.len() < m {
        let n = taken.len() as int;
        assert(taken.contains(Some(n)));
        let w = choose|w: int| 0 <= w < taken.len() && taken[w] == Some(n);
        assert(taken[w] == Some(w));
    }
}

proof fn lemma_ordered_pairing_grows(taken: Seq<Option<int>>, i: int)
    requires
        in_spec_order(taken),
        0 <= i < taken.len(),
        forall|i: int| 0 <= i < taken.len() ==> (#[trigger] taken[i]) is Some && 0 <= taken[i]->0,
        forall|i: int, j: int|
            0 <= i < j < taken.len() && (#[trigger] taken[i]) is Some && (#[trigger] taken[j])
                is Some ==> taken[i]->0 != taken[j]->0,
    ensures
        taken[i]->0 >= i,
    decreases i,
{
    if i > 0 {
        lemma_ordered_pairing_grows(taken, i - 1);
        assert(taken[i - 1] is Some && taken[i] is Some);
    }
}

proof fn lemma_ordered_pairing_at(taken: Seq<Option<int>>, m: nat, i: int)
    requires
        in_spec_order(taken),
        0 <= i < taken.len(),
        forall|i: int|
            0 <= i < taken.len() ==> (#[trigger] taken[i]) is Some && i <= taken[i]->0 < m,
        forall|i: int| 0 <= i < m ==> #[trigger] taken.contains(Some(i)),
    ensures
        taken[i] == Some(i),
    decreases i,
{
    assert(taken[i] is Some && taken[i]->0 < m);
    assert(taken.contains(Some(i)));
    let w = choose|w: int| 0 <= w < taken.len() && taken[w] == Some(i);
    if w < i {
        lemma_ordered_pairing_at(taken, m, w);
    }
}

proof fn lemma_no_findings(expected: Seq<ExpectedView>, actual: Seq<ActualView>, path: Seq<char>)
    ensures
        level_findings(expected, actual, path).len() == 0 <==> agrees(expected, actual),
    decreases expected,
{
    let taken = pairing(expected, actual);
    lemma_pairing_sound(expected, actual);
    lemma_agrees_at(expected, actual);
    lemma_expected_findings_empty(expected, actual, taken, path, expected.len());
    lemma_extras_empty(actual, taken, path, actual.len());
    assert forall|i: int| 0 <= i < expected.len() implies (level_findings(
        (#[trigger] expected[i]).children,
        actual[i].children,
        path_to(path, expected[i].name),
    ).len() == 0 <==> agrees(expected[i].children, actual[i].children)) by {
        lemma_no_findings(
            expected[i].children,
            actual[i].children,
            path_to(path, expected[i].name),
        );
    }
    if level_findings(expected, actual, path).len() == 0 {
        lemma_ordered_pairing(taken, actual.len());
        assert forall|i: int| 0 <= i < expected.len() implies fits(
            #[trigger] expected[i],
            actual[i],
        ) && (expected[i].kind == ActualKind::Block ==> agrees(
            expected[i].children,
            actual[i].children,
        )) by {
            assert(taken[i] == Some(i));
        }
    }
    if agrees(expected, actual) {
        lemma_pairing_of_agreement(expected, actual, expected.len() as int);
        assert(expected.take(expected.len() as int) =~= expected);
        assert forall|i: int| 0 <= i < taken.len() implies #[trigger] taken[i] == Some(i) by {}
        assert forall|i: int| 0 <= i < actual.len() implies #[trigger] taken.contains(Some(i)) by {
            assert(taken[i] == Some(i));
        }
        assert forall|i: int| 0 <= i < expected.len() implies (#[trigger] taken[i]) is Some && (
        expected[i].kind == ActualKind::Block ==> level_findings(
            expected[i].children,
            actual[taken[i]->0].children,
            path_to(path, expected[i].name),
        ).len() == 0) by {
            assert(fits(expected[i], actual[i]));
        }
        assert(in_spec_order(taken));
    }
}

/// A check reports nothing exactly when the file contains what the spec
/// expects, in the order and nesting of the spec, and nothing else.
pub proof fn law_no_findings_means_agreement(expected: Seq<ExpectedView>, actual: Seq<ActualView>)
    ensures
        findings_of(expected, actual).len() == 0 <==> agrees(expected, actual),
{
    lemma_no_findings(expected, actual, Seq::empty());
}

/// Whether a block with a wrapper's name stands somewhere among the nodes.
pub open spec fn has_wrapper(nodes: Seq<ActualView>, wrappers: Seq<Seq<char>>) -> bool
    decreases nodes,
{
    nodes.len() > 0 && {
        let last = nodes.last();
        ||| has_wrapper(nodes.drop_last(), wrappers)
        ||| last.kind == ActualKind::Block && wrappers.contains(last.name)
        ||| has_wrapper(last.children, wrappers)
    }
}

proof fn lemma_has_wrapper_concat(
    a: Seq<ActualView>,
    b: Seq<ActualView>,
    wrappers: Seq<Seq<char>>,
)
    ensures
        has_wrapper(a + b, wrappers) == (has_wrapper(a, wrappers) || has_wrapper(b, wrappers)),
    decreases b.len(),
{
    if b.len() == 0 {
        assert(a + b =~= a);
    } else {
        lemma_has_wrapper_concat(a, b.drop_last(), wrappers);
        assert((a + b).drop_last() =~= a + b.drop_last());
    }
}

/// No wrapper block is left after unwrapping.
pub proof fn law_unwrapping_removes_wrappers(nodes: Seq<ActualView>, wrappers: Seq<Seq<char>>)
    ensures
        !has_wrapper(unwrapped(nodes, wrappers), wrappers),
    decreases nodes,
{
    if nodes.len() > 0 {
        let last = nodes.last();
        let before = unwrapped(nodes.drop_last(), wrappers);
        let children = unwrapped(last.children, wrappers);
        law_unwrapping_removes_wrappers(nodes.drop_last(), wrappers);
        law_unwrapping_removes_wrappers(last.children, wrappers);
        if last.kind == ActualKind::Block && wrappers.contains(last.name) {
            lemma_has_wrapper_concat(before, children, wrappers);
        } else {
            let after = unwrapped(nodes, wrappers);
            assert(after.drop_last() =~= before);
        }
    }
}

proof fn lemma_tests_concat(a: Seq<ActualView>, b: Seq<ActualView>)
    ensures
        tests_of(a + b) == tests_of(a) + tests_of(b),
    decreases b.len(),
{
    if b.len() == 0 {
        assert(a + b =~= a);
        assert(tests_of(a) + tests_of(b) =~= tests_of(a));
    } else {
        lemma_tests_concat(a, b.drop_last());
        assert((a + b).drop_last() =~= a + b.drop_last());
        assert(tests_of(a + b) =~= tests_of(a) + tests_of(b));
    }
}

/// Unwrapping keeps every test, in document order.
pub proof fn law_unwrapping_keeps_the_tests(nodes: Seq<ActualView>, wrappers: Seq<Seq<char>>)
    ensures
        tests_of(unwrapped(nodes, wrappers)) == tests_of(nodes),
    decreases nodes,
{
    if nodes.len() > 0 {
        let last = nodes.last();
        let before = unwrapped(nodes.drop_last(), wrappers);
        let children = unwrapped(last.children, wrappers);
        law_unwrapping_keeps_the_tests(nodes.drop_last(), wrappers);
        law_unwrapping_keeps_the_tests(last.children, wrappers);
        if last.kind == ActualKind::Block && wrappers.contains(last.name) {
            lemma_tests_concat(before, children);
        } else {
            let after = unwrapped(nodes, wrappers);
            assert(after.drop_last() =~= before);
        }
    }
}

/// Unwrapping changes nothing where no wrapper block stands.
pub proof fn law_unwrapping_needs_wrappers(nodes: Seq<ActualView>, wrappers: Seq<Seq<char>>)
    requires
        !has_wrapper(nodes, wrappers),
    ensures
        unwrapped(nodes, wrappers) == nodes,
    decreases nodes,
{
    if nodes.len() > 0 {
        let last = nodes.last();
        law_unwrapping_needs_wrappers(nodes.drop_last(), wrappers);
        law_unwrapping_needs_wrappers(last.children, wrappers);
        assert(unwrapped(nodes, wrappers) =~= nodes);
    }
}

/// Whether a file holds, position by position and at every depth, a node of the
/// kind of the expected one whose name, white space around it aside, is the
/// expected name character for character.
pub open spec fn mirrors(expected: Seq<ExpectedView>, actual: Seq<ActualView>) -> bool
    decreases expected,
{
    &&& actual.len() == expected.len()
    &&& forall|i: int|
        0 <= i < expected.len() ==> {
            let e = #[trigger] expected[i];
            let a = actual[i];
            &&& a.kind == e.kind
            &&& trimmed(a.name) == e.name
            &&& e.kind == ActualKind::Block ==> mirrors(e.children, a.children)
        }
}

proof fn lemma_mirrors(expected: Seq<ExpectedView>, actual: Seq<ActualView>)
    ensures
        mirrors(expected, actual) == agrees(expected, actual),
    decreases expected,
{
    lemma_agrees_at(expected, actual);
    assert forall|i: int| 0 <= i < expected.len() implies mirrors(
        (#[trigger] expected[i]).children,
        actual[i].children,
    ) == agrees(expected[i].children, actual[i].children) by {
        lemma_mirrors(expected[i].children, actual[i].children);
    }
    if agrees(expected, actual) {
        assert forall|i: int| 0 <= i < expected.len() implies {
            let e = #[trigger] expected[i];
            let a = actual[i];
            &&& a.kind == e.kind
            &&& trimmed(a.name) == e.name
            &&& e.kind == ActualKind::Block ==> mirrors(e.children, a.children)
        } by {
            assert(fits(expected[i], actual[i]));
        }
    }
    if mirrors(expected, actual) {
        assert forall|i: int| 0 <= i < expected.len() implies fits(
            #[trigger] expected[i],
            actual[i],
        ) && (expected[i].kind == ActualKind::Block ==> agrees(
            expected[i].children,
            actual[i].children,
        )) by {
            assert(actual[i].kind == expected[i].kind);
        }
    }
}

/// A check finds nothing exactly in a file that mirrors the spec: the same
/// kinds and the same names, character for character, in the same order and
/// nesting.
pub proof fn law_nothing_is_found_in_a_mirror_alone(
    expected: Seq<ExpectedView>,
    actual: Seq<ActualView>,
)
    ensures
        findings_of(expected, actual).len() == 0 <==> mirrors(expected, actual),
{
    lemma_mirrors(expected, actual);
    law_no_findings_means_agreement(expected, actual);
}

/// Whether a finding comes of the expected node at a position.
spec fn from_expected(
    expected: Seq<ExpectedView>,
    actual: Seq<ActualView>,
    taken: Seq<Option<int>>,
    path: Seq<char>,
    i: int,
    f: FindingView,
) -> bool {
    let e = expected[i];
    match taken[i] {
        None => f == (FindingView::Missing {
            kind: e.kind,
            path: path_to(path, e.name),
            spec_line: e.spec_line,
        }),
        Some(j) => e.kind == ActualKind::Block && level_findings(
            e.children,
            actual[j].children,
            path_to(path, e.name),
        ).contains(f),
    }
}

proof fn lemma_contains_concat<A>(a: Seq<A>, b: Seq<A>, x: A)
    ensures
        (a + b).contains(x) <==> a.contains(x) || b.contains(x),
{
    if a.contains(x) {
        let i = a.index_of(x);
        assert((a + b)[i] == x);
    }
    if b.contains(x) {
        let i = b.index_of(x);
        assert((a + b)[a.len() + i] == x);
    }
    if (a + b).contains(x) {
        let i = (a + b).index_of(x);
        if i < a.len() {
            assert(a[i] == x);
        } else {
            assert(b[i - a.len()] == x);
        }
    }
}

proof fn lemma_contains_one<A>(y: A, x: A)
    ensures
        seq![y].contains(x) <==> x == y,
{
    assert(seq![y][0] == y);
}

proof fn lemma_expected_findings_contains(
    expected: Seq<ExpectedView>,
    actual: Seq<ActualView>,
    taken: Seq<Option<int>>,
    path: Seq<char>,
    n: nat,
    f: FindingView,
)
    requires
        n <= expected.len(),
        taken.len() == expected.len(),
    ensures
        expected_findings(expected, actual, taken, path, n).contains(f) <==> exists|i: int|
            0 <= i < n && #[trigger] from_expected(expected, actual, taken, path, i, f),
    decreases n,
{
    let all = expected_findings(expected, actual, taken, path, n);
    if n == 0 {
        assert(!all.contains(f));
    } else {
        let before = expected_findings(expected, actual, taken, path, (n - 1) as nat);
        lemma_expected_findings_contains(expected, actual, taken, path, (n - 1) as nat, f);
        let e = expected[n - 1];
        match taken[n - 1] {
            None => {
                let m = FindingView::Missing {
                    kind: e.kind,
                    path: path_to(path, e.name),
                    spec_line: e.spec_line,
                };
                assert(all =~= before + seq![m]);
                lemma_contains_concat(before, seq![m], f);
                lemma_contains_one(m, f);
            },
            Some(j) => {
                if e.kind == ActualKind::Block {
                    lemma_contains_concat(
                        before,
                        level_findings(e.children, actual[j].children, path_to(path, e.name)),
                        f,
                    );
                }
            },
        }
        assert(all.contains(f) <==> before.contains(f) || from_expected(
            expected,
            actual,
            taken,
            path,
            n - 1,
            f,
        ));
    }
}

proof fn lemma_extras_contains(
    actual: Seq<ActualView>,
    taken: Seq<Option<int>>,
    path: Seq<char>,
    n: nat,
    f: FindingView,
)
    ensures
        extras(actual, taken, path, n).contains(f) <==> exists|j: int|
            0 <= j < n && !(#[trigger] taken.contains(Some(j))) && f == (FindingView::Extra {
                kind: actual[j].kind,
                path: path_to(path, actual[j].name),
                target_line: actual[j].line,
            }),
    decreases n,
{
    let all = extras(actual, taken, path, n);
    if n == 0 {
        assert(!all.contains(f));
    } else {
        let before = extras(actual, taken, path, (n - 1) as nat);
        lemma_extras_contains(actual, taken, path, (n - 1) as nat, f);
        let j = n - 1;
        let x = FindingView::Extra {
            kind: actual[j].kind,
            path: path_to(path, actual[j].name),
            target_line: actual[j].line,
        };
        if !taken.contains(Some(j)) {
            assert(all =~= before + seq![x]);
            lemma_contains_concat(before, seq![x], f);
            lemma_contains_one(x, f);
        }
    }
}

proof fn lemma_level_contains(
    expected: Seq<ExpectedView>,
    actual: Seq<ActualView>,
    path: Seq<char>,
    f: FindingView,
)
    ensures
        ({
            let taken = pairing(expected, actual);
            level_findings(expected, actual, path).contains(f) <==> {
                ||| exists|i: int|
                    0 <= i < expected.len() && #[trigger] from_expected(
                        expected,
                        actual,
                        taken,
                        path,
                        i,
                        f,
                    )
                ||| !in_spec_order(taken) && f == (FindingView::OutOfOrder {
                    path: if path.len() == 0 {
                        "(top level)"@
                    } else {
                        path
                    },
                })
                ||| exists|j: int|
                    0 <= j < actual.len() && !(#[trigger] taken.contains(Some(j))) && f == (
                    FindingView::Extra {
                        kind: actual[j].kind,
                        path: path_to(path, actual[j].name),
                        target_line: actual[j].line,
                    })
            }
        }),
{
    let taken = pairing(expected, actual);
    lemma_pairing_len(expected, actual);
    let found = expected_findings(expected, actual, taken, path, expected.len());
    let odd = FindingView::OutOfOrder {
        path: if path.len() == 0 {
            "(top level)"@
        } else {
            path
        },
    };
    let order = if in_spec_order(taken) {
        Seq::empty()
    } else {
        seq![odd]
    };
    let rest = extras(actual, taken, path, actual.len());
    lemma_contains_concat(found + order, rest, f);
    lemma_contains_concat(found, order, f);
    lemma_contains_one(odd, f);
    lemma_expected_findings_contains(expected, actual, taken, path, expected.len(), f);
    lemma_extras_contains(actual, taken, path, actual.len(), f);
    assert(!Seq::<FindingView>::empty().contains(f));
}

/// Whether an actual node has the kind and, white space around it aside, the
/// name of an expected one.
pub open spec fn is_the_same(e: ExpectedView, a: ActualView) -> bool {
    a.kind == e.kind && trimmed(a.name) == e.name
}

/// The path of a node below a path.
pub open spec fn below(path: Seq<char>, name: Seq<char>) -> Seq<char> {
    if path == Seq::<char>::empty() {
        name
    } else {
        path + seq![' ', '>', ' '] + name
    }
}

proof fn lemma_below(path: Seq<char>, name: Seq<char>)
    ensures
        below(path, name) == path_to(path, name),
{
    reveal_strlit(" > ");
    assert(" > "@ =~= seq![' ', '>', ' ']);
    if path.len() == 0 {
        assert(path =~= Seq::empty());
    }
}

/// An expected node that no actual node of its level is, by kind and exact
/// name, is missing, at any depth and whatever else the level holds.
pub proof fn law_absent_nodes_are_missing(
    expected: Seq<ExpectedView>,
    actual: Seq<ActualView>,
    path: Seq<char>,
    i: int,
)
    requires
        0 <= i < expected.len(),
        forall|j: int| 0 <= j < actual.len() ==> !is_the_same(expected[i], #[trigger] actual[j]),
    ensures
        level_findings(expected, actual, path).contains(
            FindingView::Missing {
                kind: expected[i].kind,
                path: below(path, expected[i].name),
                spec_line: expected[i].spec_line,
            },
        ),
{
    let taken = pairing(expected, actual);
    let f = FindingView::Missing {
        kind: expected[i].kind,
        path: below(path, expected[i].name),
        spec_line: expected[i].spec_line,
    };
    lemma_pairing_sound(expected, actual);
    lemma_below(path, expected[i].name);
    if taken[i] is Some {
        assert(is_the_same(expected[i], actual[taken[i]->0]));
    }
    assert(from_expected(expected, actual, taken, path, i, f));
    lemma_level_contains(expected, actual, path, f);
}

/// An actual node that no expected node of its level is, by kind and exact
/// name, is extra, at any depth and whatever else the level holds.
pub proof fn law_unexpected_nodes_are_extra(
    expected: Seq<ExpectedView>,
    actual: Seq<ActualView>,
    path: Seq<char>,
    j: int,
)
    requires
        0 <= j < actual.len(),
        forall|i: int| 0 <= i < expected.len() ==> !is_the_same(#[trigger] expected[i], actual[j]),
    ensures
        level_findings(expected, actual, path).contains(
            FindingView::Extra {
                kind: actual[j].kind,
                path: below(path, actual[j].name),
                target_line: actual[j].line,
            },
        ),
{
    let taken = pairing(expected, actual);
    let f = FindingView::Extra {
        kind: actual[j].kind,
        path: below(path, actual[j].name),
        target_line: actual[j].line,
    };
    lemma_pairing_sound(expected, actual);
    lemma_below(path, actual[j].name);
    if taken.contains(Some(j)) {
        let i = taken.index_of(Some(j));
        assert(is_the_same(expected[i], actual[j]));
    }
    lemma_level_contains(expected, actual, path, f);
}

/// Whether no two nodes of either side of a level have one kind and name.
pub open spec fn names_are_distinct(expected: Seq<ExpectedView>, actual: Seq<ActualView>) -> bool {
    &&& forall|i: int, k: int|
        0 <= i < k < expected.len() ==> !((#[trigger] expected[i]).kind == (
        #[trigger] expected[k]).kind && expected[i].name == expected[k].name)
    &&& forall|i: int, k: int|
        0 <= i < k < actual.len() ==> !((#[trigger] actual[i]).kind == (#[trigger] actual[k]).kind
            && trimmed(actual[i].name) == trimmed(actual[k].name))
}

proof fn lemma_distinct_pairing(
    expected: Seq<ExpectedView>,
    actual: Seq<ActualView>,
    i: int,
    j: int,
)
    requires
        names_are_distinct(expected, actual),
        0 <= i < expected.len(),
        0 <= j < actual.len(),
    ensures
        pairing(expected, actual)[i] == Some(j) <==> is_the_same(expected[i], actual[j]),
{
    let taken = pairing(expected, actual);
    lemma_pairing_sound(expected, actual);
    lemma_pairing_prefix(expected, actual, i);
    lemma_pairing_prefix(expected, actual, i + 1);
    let now = taken.take(i);
    assert(expected.take(i + 1).drop_last() =~= expected.take(i));
    assert(expected.take(i + 1).last() == expected[i]);
    assert(taken.take(i + 1).last() == taken[i]);
    assert(taken[i] == first_free(expected[i], actual, now, 0));
    lemma_first_free(expected[i], actual, now, 0);
    if is_the_same(expected[i], actual[j]) {
        if now.contains(Some(j)) {
            let k = now.index_of(Some(j));
            assert(taken[k] == Some(j));
            assert(fits(expected[k], actual[j]));
            assert(expected[k].kind == expected[i].kind && expected[k].name == expected[i].name);
        }
        assert(fits(expected[i], actual[j]));
        let k = taken[i]->0;
        assert(fits(expected[i], actual[k]));
        if k < j {
            assert(actual[k].kind == actual[j].kind);
        } else if j < k {
            assert(actual[j].kind == actual[k].kind);
        }
    }
}

/// What a check says of a level whose names are distinct, and nothing else:
/// that an expected node is missing where no actual node is the same, that an
/// actual node is extra where no expected node is the same, that the order
/// differs where two nodes stand the other way round, and what it says of the
/// children of two blocks that are the same.
pub proof fn law_findings_of_distinct_siblings(
    expected: Seq<ExpectedView>,
    actual: Seq<ActualView>,
    path: Seq<char>,
    f: FindingView,
)
    requires
        names_are_distinct(expected, actual),
    ensures
        level_findings(expected, actual, path).contains(f) <==> {
            ||| exists|i: int|
                0 <= i < expected.len() && f == (FindingView::Missing {
                    kind: (#[trigger] expected[i]).kind,
                    path: below(path, expected[i].name),
                    spec_line: expected[i].spec_line,
                }) && forall|j: int|
                    0 <= j < actual.len() ==> !is_the_same(expected[i], #[trigger] actual[j])
            ||| exists|j: int|
                0 <= j < actual.len() && f == (FindingView::Extra {
                    kind: (#[trigger] actual[j]).kind,
                    path: below(path, actual[j].name),
                    target_line: actual[j].line,
                }) && forall|i: int|
                    0 <= i < expected.len() ==> !is_the_same(#[trigger] expected[i], actual[j])
            ||| f == (FindingView::OutOfOrder {
                path: if path == Seq::<char>::empty() {
                    "(top level)"@
                } else {
                    path
                },
            }) && exists|i: int, k: int, j: int, l: int|
                0 <= i < k < expected.len() && 0 <= l < j < actual.len() && #[trigger] is_the_same(
                    expected[i],
                    actual[j],
                ) && #[trigger] is_the_same(expected[k], actual[l])
            ||| exists|i: int, j: int|
                0 <= i < expected.len() && 0 <= j < actual.len() && #[trigger] is_the_same(
                    expected[i],
                    actual[j],
                ) && expected[i].kind == ActualKind::Block && level_findings(
                    expected[i].children,
                    actual[j].children,
                    below(path, expected[i].name),
                ).contains(f)
        },
{
    let taken = pairing(expected, actual);
    lemma_pairing_sound(expected, actual);
    lemma_level_contains(expected, actual, path, f);
    if path.len() == 0 {
        assert(path =~= Seq::empty());
    }
    assert forall|i: int, j: int|
        0 <= i < expected.len() && 0 <= j < actual.len() implies ((#[trigger] taken[i]) == Some(j)
        <==> #[trigger] is_the_same(expected[i], actual[j])) by {
        lemma_distinct_pairing(expected, actual, i, j);
    }
    assert forall|name: Seq<char>| #[trigger] below(path, name) == path_to(path, name) by {
        lemma_below(path, name);
    }
    let missing = exists|i: int|
        0 <= i < expected.len() && f == (FindingView::Missing {
            kind: (#[trigger] expected[i]).kind,
            path: below(path, expected[i].name),
            spec_line: expected[i].spec_line,
        }) && forall|j: int|
            0 <= j < actual.len() ==> !is_the_same(expected[i], #[trigger] actual[j]);
    let nested = exists|i: int, j: int|
        0 <= i < expected.len() && 0 <= j < actual.len() && #[trigger] is_the_same(
            expected[i],
            actual[j],
        ) && expected[i].kind == ActualKind::Block && level_findings(
            expected[i].children,
            actual[j].children,
            below(path, expected[i].name),
        ).contains(f);
    let own = exists|i: int|
        0 <= i < expected.len() && #[trigger] from_expected(expected, actual, taken, path, i, f);
    if own {
        let i = choose|i: int|
            0 <= i < expected.len() && #[trigger] from_expected(
                expected,
                actual,
                taken,
                path,
                i,
                f,
            );
        match taken[i] {
            None => {
                assert forall|j: int| 0 <= j < actual.len() implies !is_the_same(
                    expected[i],
                    #[trigger] actual[j],
                ) by {
                    assert(taken[i] != Some(j));
                }
                assert(below(path, expected[i].name) == path_to(path, expected[i].name));
                assert(missing);
            },
            Some(j) => {
                assert(is_the_same(expected[i], actual[j]));
                assert(below(path, expected[i].name) == path_to(path, expected[i].name));
                assert(nested);
            },
        }
    }
    if missing {
        let i = choose|i: int|
            0 <= i < expected.len() && f == (FindingView::Missing {
                kind: (#[trigger] expected[i]).kind,
                path: below(path, expected[i].name),
                spec_line: expected[i].spec_line,
            }) && forall|j: int|
                0 <= j < actual.len() ==> !is_the_same(expected[i], #[trigger] actual[j]);
        if taken[i] is Some {
            assert(is_the_same(expected[i], actual[taken[i]->0]));
        }
        assert(from_expected(expected, actual, taken, path, i, f));
    }
    if nested {
        let (i, j) = choose|i: int, j: int|
            0 <= i < expected.len() && 0 <= j < actual.len() && #[trigger] is_the_same(
                expected[i],
                actual[j],
            ) && expected[i].kind == ActualKind::Block && level_findings(
                expected[i].children,
                actual[j].children,
                below(path, expected[i].name),
            ).contains(f);
        assert(taken[i] == Some(j));
        assert(from_expected(expected, actual, taken, path, i, f));
    }
    assert(own <==> missing || nested);
    assert forall|j: int| 0 <= j < actual.len() implies (#[trigger] taken.contains(Some(j))
        <==> exists|i: int| 0 <= i < expected.len() && #[trigger] is_the_same(
        expected[i],
        actual[j],
    )) by {
        if taken.contains(Some(j)) {
            let i = taken.index_of(Some(j));
            assert(is_the_same(expected[i], actual[j]));
        }
        if exists|i: int| 0 <= i < expected.len() && #[trigger] is_the_same(expected[i], actual[j]) {
            let i = choose|i: int|
                0 <= i < expected.len() && #[trigger] is_the_same(expected[i], actual[j]);
            assert(taken[i] == Some(j));
        }
    }
    let extra = exists|j: int|
        0 <= j < actual.len() && f == (FindingView::Extra {
            kind: (#[trigger] actual[j]).kind,
            path: below(path, actual[j].name),
            target_line: actual[j].line,
        }) && forall|i: int|
            0 <= i < expected.len() ==> !is_the_same(#[trigger] expected[i], actual[j]);
    let left = exists|j: int|
        0 <= j < actual.len() && !(#[trigger] taken.contains(Some(j))) && f == (
        FindingView::Extra {
            kind: actual[j].kind,
            path: path_to(path, actual[j].name),
            target_line: actual[j].line,
        });
    if left {
        let j = choose|j: int|
            0 <= j < actual.len() && !(#[trigger] taken.contains(Some(j))) && f == (
            FindingView::Extra {
                kind: actual[j].kind,
                path: path_to(path, actual[j].name),
                target_line: actual[j].line,
            });
        assert(below(path, actual[j].name) == path_to(path, actual[j].name));
        assert(extra);
    }
    if extra {
        let j = choose|j: int|
            0 <= j < actual.len() && f == (FindingView::Extra {
                kind: (#[trigger] actual[j]).kind,
                path: below(path, actual[j].name),
                target_line: actual[j].line,
            }) && forall|i: int|
                0 <= i < expected.len() ==> !is_the_same(#[trigger] expected[i], actual[j]);
        assert(!taken.contains(Some(j)));
        assert(left);
    }
    let crossed = exists|i: int, k: int, j: int, l: int|
        0 <= i < k < expected.len() && 0 <= l < j < actual.len() && #[trigger] is_the_same(
            expected[i],
            actual[j],
        ) && #[trigger] is_the_same(expected[k], actual[l]);
    if !in_spec_order(taken) {
        let (i, k) = choose|i: int, k: int|
            0 <= i < k < taken.len() && (#[trigger] taken[i]) is Some && (#[trigger] taken[k])
                is Some && !(taken[i]->0 <= taken[k]->0);
        assert(is_the_same(expected[i], actual[taken[i]->0]));
        assert(is_the_same(expected[k], actual[taken[k]->0]));
        assert(crossed);
    }
    if crossed {
        let (i, k, j, l) = choose|i: int, k: int, j: int, l: int|
            0 <= i < k < expected.len() && 0 <= l < j < actual.len() && #[trigger] is_the_same(
                expected[i],
                actual[j],
            ) && #[trigger] is_the_same(expected[k], actual[l]);
        assert(taken[i] == Some(j) && taken[k] == Some(l));
        assert(!in_spec_order(taken));
    }
}

proof fn lemma_expected_concat(a: Seq<SpecTreeView>, b: Seq<SpecTreeView>, mapping: MappingView)
    ensures
        expected_of(a + b, mapping) == expected_of(a, mapping) + expected_of(b, mapping),
    decreases b.len(),
{
    if b.len() == 0 {
        assert(a + b =~= a);
        assert(expected_of(a, mapping) + expected_of(b, mapping) =~= expected_of(a, mapping));
    } else {
        lemma_expected_concat(a, b.drop_last(), mapping);
        assert((a + b).drop_last() =~= a + b.drop_last());
        assert(expected_of(a + b, mapping) =~= expected_of(a, mapping) + expected_of(b, mapping));
    }
}

/// Every tree of a file is expected, in its place: as a block named by its root
/// that holds its nodes, or as its nodes, as the mapping says.
pub proof fn law_every_tree_is_expected(
    before: Seq<SpecTreeView>,
    tree: SpecTreeView,
    after: Seq<SpecTreeView>,
    mapping: MappingView,
)
    ensures
        expected_of(before + seq![tree] + after, mapping) == expected_of(before, mapping) + (
        match mapping.root {
            RootMapping::File => expected_nodes(tree.children, mapping),
            RootMapping::Block => seq![
                ExpectedView {
                    kind: ActualKind::Block,
                    name: trimmed(tree.root),
                    text: tree.root,
                    spec_line: tree.line,
                    children: expected_nodes(tree.children, mapping),
                },
            ],
        }) + expected_of(after, mapping),
        expected_of(Seq::empty(), mapping) == Seq::<ExpectedView>::empty(),
{
    lemma_expected_concat(before + seq![tree], after, mapping);
    lemma_expected_concat(before, seq![tree], mapping);
    let one = seq![tree];
    assert(one.drop_last() =~= Seq::empty());
    assert(expected_of(one.drop_last(), mapping) =~= Seq::empty());
    match mapping.root {
        RootMapping::File => {
            assert(Seq::<ExpectedView>::empty() + expected_nodes(tree.children, mapping)
                =~= expected_nodes(tree.children, mapping));
        },
        RootMapping::Block => {
            assert(expected_of(one, mapping).len() == 1);
            assert(expected_of(one, mapping) =~= seq![expected_of(one, mapping)[0]]);
        },
    }
}

/// Every node of a spec is expected, at its place and at any depth: a condition
/// as a block and an action as a test, with its text and line, and under the
/// name that the rule for its kind gives its text.
pub proof fn law_every_node_is_expected(nodes: Seq<SpecNodeView>, mapping: MappingView, i: int)
    requires
        0 <= i < nodes.len(),
    ensures
        expected_nodes(nodes, mapping).len() == nodes.len(),
        ({
            let e = expected_nodes(nodes, mapping)[i];
            &&& e.text == nodes[i].text
            &&& e.spec_line == nodes[i].line
            &&& e.children == expected_nodes(nodes[i].children, mapping)
            &&& nodes[i].kind == NodeKind::Condition ==> e.kind == ActualKind::Block && e.name
                == name_for(mapping.block, nodes[i].text)
            &&& nodes[i].kind == NodeKind::Action ==> e.kind == ActualKind::Test && e.name
                == name_for(mapping.test, nodes[i].text)
        }),
    decreases nodes.len(),
{
    lemma_expected_len(nodes, mapping);
    lemma_expected_len(nodes.drop_last(), mapping);
    if i < nodes.len() - 1 {
        law_every_node_is_expected(nodes.drop_last(), mapping, i);
    }
}

proof fn lemma_expected_len(nodes: Seq<SpecNodeView>, mapping: MappingView)
    ensures
        expected_nodes(nodes, mapping).len() == nodes.len(),
    decreases nodes.len(),
{
    if nodes.len() > 0 {
        lemma_expected_len(nodes.drop_last(), mapping);
    }
}

proof fn lemma_unwrapped_concat(
    a: Seq<ActualView>,
    b: Seq<ActualView>,
    wrappers: Seq<Seq<char>>,
)
    ensures
        unwrapped(a + b, wrappers) == unwrapped(a, wrappers) + unwrapped(b, wrappers),
    decreases b.len(),
{
    if b.len() == 0 {
        assert(a + b =~= a);
        assert(unwrapped(a, wrappers) + unwrapped(b, wrappers) =~= unwrapped(a, wrappers));
    } else {
        lemma_unwrapped_concat(a, b.drop_last(), wrappers);
        assert((a + b).drop_last() =~= a + b.drop_last());
        assert(unwrapped(a + b, wrappers) =~= unwrapped(a, wrappers) + unwrapped(b, wrappers));
    }
}

/// Unwrapping puts what a wrapper block holds in the block's place, and leaves
/// every other node where it is, with its kind, name and line; inside both it
/// goes on alike.
pub proof fn law_wrappers_are_transparent(
    before: Seq<ActualView>,
    node: ActualView,
    after: Seq<ActualView>,
    wrappers: Seq<Seq<char>>,
)
    ensures
        unwrapped(before + seq![node] + after, wrappers) == unwrapped(before, wrappers) + (
        if node.kind == ActualKind::Block && exists|k: int|
            0 <= k < wrappers.len() && #[trigger] wrappers[k] == node.name {
            unwrapped(node.children, wrappers)
        } else {
            seq![
                ActualView {
                    kind: node.kind,
                    name: node.name,
                    line: node.line,
                    children: unwrapped(node.children, wrappers),
                },
            ]
        }) + unwrapped(after, wrappers),
        unwrapped(Seq::empty(), wrappers) == Seq::<ActualView>::empty(),
{
    lemma_unwrapped_concat(before + seq![node], after, wrappers);
    lemma_unwrapped_concat(before, seq![node], wrappers);
    let none = Seq::<ActualView>::empty();
    assert(seq![node].drop_last() =~= none);
    assert(unwrapped(none, wrappers) =~= none);
    assert(none + unwrapped(node.children, wrappers) =~= unwrapped(node.children, wrappers));
    let kept = ActualView { children: unwrapped(node.children, wrappers), ..node };
    assert(none.push(kept) =~= seq![kept]);
}

/// Expected nodes claim actual ones in the order of the spec: each the first one
/// of its level that is the same and that none before it has claimed, or none
/// where there is no such one. So of equal nodes each stands for one.
pub proof fn law_nodes_are_claimed_in_spec_order(
    expected: Seq<ExpectedView>,
    e: ExpectedView,
    actual: Seq<ActualView>,
    k: int,
)
    requires
        0 <= k <= actual.len(),
        forall|j: int|
            0 <= j < k ==> !is_the_same(e, #[trigger] actual[j]) || exists|i: int|
                0 <= i < expected.len() && #[trigger] pairing(expected, actual)[i] == Some(j),
        k < actual.len() ==> is_the_same(e, actual[k]) && forall|i: int|
            0 <= i < expected.len() ==> #[trigger] pairing(expected, actual)[i] != Some(k),
    ensures
        pairing(Seq::empty(), actual) == Seq::<Option<int>>::empty(),
        pairing(expected, actual).len() == expected.len(),
        pairing(expected.push(e), actual) == pairing(expected, actual).push(
            if k < actual.len() {
                Some(k)
            } else {
                None
            },
        ),
{
    assert(expected.push(e).drop_last() =~= expected);
    lemma_pairing_len(expected, actual);
    let taken = pairing(expected, actual);
    assert forall|j: int| 0 <= j < k implies !fits(e, #[trigger] actual[j]) || taken.contains(
        Some(j),
    ) by {
        if is_the_same(e, actual[j]) {
            let i = choose|i: int|
                0 <= i < expected.len() && #[trigger] pairing(expected, actual)[i] == Some(j);
            assert(taken[i] == Some(j));
        }
    }
    if k < actual.len() && taken.contains(Some(k)) {
        let i = choose|i: int| 0 <= i < taken.len() && taken[i] == Some(k);
        assert(taken[i] != Some(k));
    }
    lemma_free_passes(e, actual, taken, 0, k);
}

proof fn lemma_free_passes(
    e: ExpectedView,
    actual: Seq<ActualView>,
    taken: Seq<Option<int>>,
    from: int,
    k: int,
)
    requires
        0 <= from <= k <= actual.len(),
        forall|j: int|
            from <= j < k ==> !fits(e, #[trigger] actual[j]) || taken.contains(Some(j)),
    ensures
        first_free(e, actual, taken, from) == first_free(e, actual, taken, k),
    decreases k - from,
{
    if from < k {
        assert(!fits(e, actual[from]) || taken.contains(Some(from)));
        lemma_free_passes(e, actual, taken, from + 1, k);
    }
}

/// The findings of a level come in this order: those of the expected nodes in
/// the order of the spec, a missing node by itself and a block that was claimed
/// by what is found in it; then that the order differs, once, where claimed
/// nodes stand the other way round; then the nodes that none has claimed, in
/// the order of the file.
pub proof fn law_findings_come_in_spec_order(
    expected: Seq<ExpectedView>,
    actual: Seq<ActualView>,
    path: Seq<char>,
    n: nat,
    m: nat,
)
    requires
        n < expected.len(),
        m < actual.len(),
    ensures
        ({
            let taken = pairing(expected, actual);
            let e = expected[n as int];
            let a = actual[m as int];
            let sorted = forall|i: int, k: int|
                0 <= i < k < taken.len() && (#[trigger] taken[i]) is Some && (
                #[trigger] taken[k]) is Some ==> taken[i]->0 <= taken[k]->0;
            let first = expected_findings(expected, actual, taken, path, expected.len());
            let last = extras(actual, taken, path, actual.len());
            &&& expected_findings(expected, actual, taken, path, 0) == Seq::<FindingView>::empty()
            &&& taken[n as int] is None ==> expected_findings(
                expected,
                actual,
                taken,
                path,
                n + 1,
            ) == expected_findings(expected, actual, taken, path, n).push(
                FindingView::Missing {
                    kind: e.kind,
                    path: below(path, e.name),
                    spec_line: e.spec_line,
                },
            )
            &&& taken[n as int] is Some && e.kind == ActualKind::Test ==> expected_findings(
                expected,
                actual,
                taken,
                path,
                n + 1,
            ) == expected_findings(expected, actual, taken, path, n)
            &&& taken[n as int] is Some && e.kind == ActualKind::Block ==> expected_findings(
                expected,
                actual,
                taken,
                path,
                n + 1,
            ) == expected_findings(expected, actual, taken, path, n) + level_findings(
                e.children,
                actual[taken[n as int]->0].children,
                below(path, e.name),
            )
            &&& extras(actual, taken, path, 0) == Seq::<FindingView>::empty()
            &&& extras(actual, taken, path, m + 1) == if exists|i: int|
                0 <= i < taken.len() && taken[i] == Some(m as int) {
                extras(actual, taken, path, m)
            } else {
                extras(actual, taken, path, m).push(
                    FindingView::Extra {
                        kind: a.kind,
                        path: below(path, a.name),
                        target_line: a.line,
                    },
                )
            }
            &&& sorted ==> level_findings(expected, actual, path) == first + last
            &&& !sorted ==> level_findings(expected, actual, path) == first + seq![
                FindingView::OutOfOrder {
                    path: if path.len() == 0 {
                        "(top level)"@
                    } else {
                        path
                    },
                },
            ] + last
        }),
{
    reveal_strlit(" > ");
    assert(" > "@ =~= seq![' ', '>', ' ']);
    let taken = pairing(expected, actual);
    if path.len() == 0 {
        assert(path =~= Seq::empty());
    }
    assert(forall|name: Seq<char>| #[trigger] path_to(path, name) == below(path, name));
    let first = expected_findings(expected, actual, taken, path, expected.len());
    assert(first + Seq::<FindingView>::empty() =~= first);
    let sorted = forall|i: int, k: int|
        0 <= i < k < taken.len() && (#[trigger] taken[i]) is Some && (#[trigger] taken[k]) is Some
            ==> taken[i]->0 <= taken[k]->0;
    assert(sorted == in_spec_order(taken));
}

} // verus!
