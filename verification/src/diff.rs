//! Structural behavior differences between parsed tree specifications.

use vstd::prelude::*;
use crate::text::{concat3, same, sorted_set};
use crate::tree::{NodeKind, SpecNode, SpecTree};

verus! {

use crate::text::{ascending, lemma_ascending_unique, lemma_text_set, text_set, views};
use crate::tree::{lemma_node_children, SpecNodeView, SpecTreeView};

/// A behavior path and its structural location.
#[derive(Clone, Debug)]
struct Behavior {
    path: String,
    parent: String,
    position: usize,
    kind: NodeKind,
}

/// A behavior path and its structural location.
pub struct BehaviorView {
    pub path: Seq<char>,
    pub parent: Seq<char>,
    pub position: nat,
    pub kind: NodeKind,
}

impl View for Behavior {
    type V = BehaviorView;

    closed spec fn view(&self) -> BehaviorView {
        BehaviorView {
            path: self.path@,
            parent: self.parent@,
            position: self.position as nat,
            kind: self.kind,
        }
    }
}

/// One conservative behavior rename.
#[derive(Clone, Debug, PartialEq, Eq)]
pub struct Rename {
    /// Path in the old tree.
    pub from: String,
    /// Path in the new tree.
    pub to: String,
}

/// The model of a [`Rename`].
pub struct RenameView {
    pub from: Seq<char>,
    pub to: Seq<char>,
}

impl View for Rename {
    type V = RenameView;

    open spec fn view(&self) -> RenameView {
        RenameView { from: self.from@, to: self.to@ }
    }
}

/// Structural changes within one tree file.
#[derive(Clone, Debug, PartialEq, Eq)]
pub struct Changes {
    /// Paths only on the new side.
    pub added: Vec<String>,
    /// Paths only on the old side.
    pub removed: Vec<String>,
    /// Unambiguous edited sibling labels.
    pub renamed: Vec<Rename>,
}

/// The model of [`Changes`].
#[verifier::ext_equal]
pub struct ChangesView {
    pub added: Seq<Seq<char>>,
    pub removed: Seq<Seq<char>>,
    pub renamed: Seq<RenameView>,
}

impl View for Changes {
    type V = ChangesView;

    open spec fn view(&self) -> ChangesView {
        ChangesView {
            added: views(self.added@),
            removed: views(self.removed@),
            renamed: views(self.renamed@),
        }
    }
}

impl Default for Changes {
    fn default() -> (out: Self)
        ensures
            out@ == (ChangesView {
                added: Seq::empty(),
                removed: Seq::empty(),
                renamed: Seq::empty(),
            }),
    {
        let out = Changes { added: Vec::new(), removed: Vec::new(), renamed: Vec::new() };
        assert(out@ =~= (ChangesView {
            added: Seq::empty(),
            removed: Seq::empty(),
            renamed: Seq::empty(),
        }));
        out
    }
}

impl Changes {
    /// Whether this file has any behavior changes.
    #[must_use]
    pub fn is_empty(&self) -> (yes: bool)
        ensures
            yes == (self@.added.len() == 0 && self@.removed.len() == 0 && self@.renamed.len() == 0),
    {
        self.added.len() == 0 && self.removed.len() == 0 && self.renamed.len() == 0
    }
}

/// The behaviors of the nodes below `parent`, in document order.
pub open spec fn node_behaviors(nodes: Seq<SpecNodeView>, parent: Seq<char>) -> Seq<BehaviorView>
    decreases nodes,
{
    if nodes.len() == 0 {
        Seq::empty()
    } else {
        let last = nodes.last();
        let path = parent + " > "@ + last.text;
        node_behaviors(nodes.drop_last(), parent).push(
            BehaviorView { path, parent, position: (nodes.len() - 1) as nat, kind: last.kind },
        ) + node_behaviors(last.children, path)
    }
}

/// The behaviors of a tree file, in document order.
pub open spec fn behaviors(trees: Seq<SpecTreeView>) -> Seq<BehaviorView>
    decreases trees.len(),
{
    if trees.len() == 0 {
        Seq::empty()
    } else {
        behaviors(trees.drop_last()) + node_behaviors(trees.last().children, trees.last().root)
    }
}

/// Whether a path is among the behaviors.
pub open spec fn has_path(items: Seq<BehaviorView>, path: Seq<char>) -> bool {
    exists|i: int| 0 <= i < items.len() && (#[trigger] items[i]).path == path
}

/// The behaviors whose path the other side does not have.
pub open spec fn only_here(here: Seq<BehaviorView>, there: Seq<BehaviorView>) -> Seq<BehaviorView> {
    here.filter(|item: BehaviorView| !has_path(there, item.path))
}

/// Whether the behavior at `i` is the only one below `parent`.
pub open spec fn is_only_child(items: Seq<BehaviorView>, parent: Seq<char>, i: int) -> bool {
    &&& 0 <= i < items.len()
    &&& items[i].parent == parent
    &&& forall|j: int| 0 <= j < items.len() && (#[trigger] items[j]).parent == parent ==> j == i
}

/// The only behavior below `parent`, if there is exactly one.
pub open spec fn only_child(items: Seq<BehaviorView>, parent: Seq<char>) -> Option<int> {
    if exists|i: int| is_only_child(items, parent, i) {
        Some(choose|i: int| is_only_child(items, parent, i))
    } else {
        None
    }
}

/// The rename below `parent`: where exactly one behavior was removed and
/// exactly one added there, at one position and of one kind.
pub open spec fn rename_below(
    removed: Seq<BehaviorView>,
    added: Seq<BehaviorView>,
    parent: Seq<char>,
) -> Option<RenameView> {
    match (only_child(removed, parent), only_child(added, parent)) {
        (Some(i), Some(j)) => if removed[i].position == added[j].position && removed[i].kind
            == added[j].kind {
            Some(RenameView { from: removed[i].path, to: added[j].path })
        } else {
            None
        },
        _ => None,
    }
}

/// The parents of behaviors.
pub open spec fn parents_of(items: Seq<BehaviorView>) -> Seq<Seq<char>> {
    items.map_values(|item: BehaviorView| item.parent)
}

/// The renames below the given parents, in their order.
pub open spec fn renames_below(
    removed: Seq<BehaviorView>,
    added: Seq<BehaviorView>,
    parents: Seq<Seq<char>>,
) -> Seq<RenameView>
    decreases parents.len(),
{
    if parents.len() == 0 {
        Seq::empty()
    } else {
        let before = renames_below(removed, added, parents.drop_last());
        match rename_below(removed, added, parents.last()) {
            Some(rename) => before.push(rename),
            None => before,
        }
    }
}

/// The paths of the behaviors below whose parent nothing was renamed.
pub open spec fn not_renamed(
    items: Seq<BehaviorView>,
    removed: Seq<BehaviorView>,
    added: Seq<BehaviorView>,
) -> Seq<Seq<char>>
    decreases items.len(),
{
    if items.len() == 0 {
        Seq::empty()
    } else {
        let before = not_renamed(items.drop_last(), removed, added);
        match rename_below(removed, added, items.last().parent) {
            Some(_) => before,
            None => before.push(items.last().path),
        }
    }
}

/// The changes between two sets of behaviors: those only on one side, except
/// that a pair that is an unambiguous rename is reported as one, in the order
/// of the parents.
pub open spec fn changes_between(old_side: Seq<BehaviorView>, new_side: Seq<BehaviorView>) -> ChangesView {
    let removed = only_here(old_side, new_side);
    let added = only_here(new_side, old_side);
    ChangesView {
        added: not_renamed(added, removed, added),
        removed: not_renamed(removed, removed, added),
        renamed: renames_below(removed, added, text_set(parents_of(removed))),
    }
}

fn flatten_nodes(nodes: &Vec<SpecNode>, parent: &str, out: &mut Vec<Behavior>)
    ensures
        views(final(out)@) == views(old(out)@) + node_behaviors(views(nodes@), parent@),
    decreases nodes,
{
    let ghost start = views(out@);
    let ghost all = views(nodes@);
    let mut position: usize = 0;
    assert(all.take(0) =~= Seq::empty());
    assert(start + Seq::<BehaviorView>::empty() =~= start);
    while position < nodes.len()
        invariant
            position <= nodes@.len(),
            all == views(nodes@),
            views(out@) == start + node_behaviors(all.take(position as int), parent@),
        decreases nodes@.len() - position,
    {
        let node = &nodes[position];
        let ghost before = views(out@);
        proof {
            assert(all.take(position + 1).drop_last() =~= all.take(position as int));
            lemma_node_children(*node);
        }
        let path = concat3(parent, " > ", node.text.as_str());
        let item = Behavior {
            path: path.clone(),
            parent: parent.to_owned(),
            position,
            kind: node.kind,
        };
        out.push(item);
        assert(views(out@) =~= before.push(item@));
        flatten_nodes(&node.children, path.as_str(), out);
        position += 1;
        assert(views(out@) =~= start + node_behaviors(all.take(position as int), parent@));
    }
    assert(all.take(position as int) =~= all);
}

fn flatten(trees: &[SpecTree]) -> (out: Vec<Behavior>)
    ensures
        views(out@) == behaviors(views(trees@)),
{
    let mut out: Vec<Behavior> = Vec::new();
    let ghost all = views(trees@);
    let mut i: usize = 0;
    assert(all.take(0) =~= Seq::empty());
    assert(views(out@) =~= Seq::empty());
    while i < trees.len()
        invariant
            i <= trees@.len(),
            all == views(trees@),
            views(out@) == behaviors(all.take(i as int)),
        decreases trees@.len() - i,
    {
        assert(all.take(i + 1).drop_last() =~= all.take(i as int));
        let tree = &trees[i];
        flatten_nodes(&tree.children, tree.root.as_str(), &mut out);
        i += 1;
    }
    assert(all.take(i as int) =~= all);
    out
}

fn knows_path(items: &Vec<Behavior>, path: &str) -> (yes: bool)
    ensures
        yes == has_path(views(items@), path@),
{
    let mut i: usize = 0;
    while i < items.len()
        invariant
            i <= items@.len(),
            forall|j: int| 0 <= j < i ==> (#[trigger] views(items@)[j]).path != path@,
        decreases items@.len() - i,
    {
        assert(views(items@)[i as int].path == items@[i as int].path@);
        if same(items[i].path.as_str(), path) {
            return true;
        }
        i += 1;
    }
    false
}

fn only_on(here: &Vec<Behavior>, there: &Vec<Behavior>) -> (out: Vec<Behavior>)
    ensures
        views(out@) == only_here(views(here@), views(there@)),
{
    let mut out: Vec<Behavior> = Vec::new();
    let ghost all = views(here@);
    let ghost keep = |item: BehaviorView| !has_path(views(there@), item.path);
    let mut i: usize = 0;
    reveal(Seq::filter);
    assert(all.take(0) =~= Seq::empty());
    assert(views(out@) =~= Seq::empty());
    while i < here.len()
        invariant
            i <= here@.len(),
            all == views(here@),
            keep == (|item: BehaviorView| !has_path(views(there@), item.path)),
            views(out@) == all.take(i as int).filter(keep),
        decreases here@.len() - i,
    {
        reveal(Seq::filter);
        let ghost before = views(out@);
        assert(all.take(i + 1).drop_last() =~= all.take(i as int));
        let item = &here[i];
        assert(all.take(i + 1).last() == item@);
        assert(item@.path == item.path@);
        if !knows_path(there, item.path.as_str()) {
            let kept = Behavior {
                path: item.path.clone(),
                parent: item.parent.clone(),
                position: item.position,
                kind: item.kind,
            };
            out.push(kept);
            assert(views(out@) =~= before.push(item@));
        }
        i += 1;
    }
    assert(all.take(i as int) =~= all);
    out
}

fn find_only_child(items: &Vec<Behavior>, parent: &str) -> (found: Option<usize>)
    ensures
        match found {
            Some(i) => only_child(views(items@), parent@) == Some(i as int) && i < items@.len(),
            None => only_child(views(items@), parent@) is None,
        },
{
    let ghost all = views(items@);
    let mut found: Option<usize> = None;
    let mut i: usize = 0;
    while i < items.len()
        invariant
            i <= items@.len(),
            all == views(items@),
            match found {
                Some(k) => k < i && all[k as int].parent == parent@ && forall|j: int|
                    0 <= j < i && (#[trigger] all[j]).parent == parent@ ==> j == k,
                None => forall|j: int| 0 <= j < i ==> (#[trigger] all[j]).parent != parent@,
            },
        decreases items@.len() - i,
    {
        assert(all[i as int].parent == items@[i as int].parent@);
        if same(items[i].parent.as_str(), parent) {
            if let Some(k) = found {
                assert(all[k as int].parent == parent@);
                return None;
            }
            found = Some(i);
        }
        i += 1;
    }
    proof {
        if let Some(k) = found {
            assert(is_only_child(all, parent@, k as int));
        }
    }
    found
}

fn find_rename(removed: &Vec<Behavior>, added: &Vec<Behavior>, parent: &str) -> (found: Option<
    Rename,
>)
    ensures
        match found {
            Some(rename) => rename_below(views(removed@), views(added@), parent@) == Some(rename@),
            None => rename_below(views(removed@), views(added@), parent@) is None,
        },
{
    match (find_only_child(removed, parent), find_only_child(added, parent)) {
        (Some(i), Some(j)) => {
            let before = &removed[i];
            let after = &added[j];
            assert(views(removed@)[i as int] == before@);
            assert(views(added@)[j as int] == after@);
            if before.position == after.position && before.kind == after.kind {
                Some(Rename { from: before.path.clone(), to: after.path.clone() })
            } else {
                None
            }
        },
        _ => None,
    }
}

fn left_over(items: &Vec<Behavior>, removed: &Vec<Behavior>, added: &Vec<Behavior>) -> (out: Vec<
    String,
>)
    ensures
        views(out@) == not_renamed(views(items@), views(removed@), views(added@)),
{
    let mut out: Vec<String> = Vec::new();
    let ghost all = views(items@);
    let mut i: usize = 0;
    assert(all.take(0) =~= Seq::empty());
    assert(views(out@) =~= Seq::empty());
    while i < items.len()
        invariant
            i <= items@.len(),
            all == views(items@),
            views(out@) == not_renamed(all.take(i as int), views(removed@), views(added@)),
        decreases items@.len() - i,
    {
        let ghost before = views(out@);
        let item = &items[i];
        assert(all.take(i + 1).drop_last() =~= all.take(i as int));
        assert(all.take(i + 1).last() == item@);
        if find_rename(removed, added, item.parent.as_str()).is_none() {
            out.push(item.path.clone());
            assert(views(out@) =~= before.push(item@.path));
        }
        i += 1;
    }
    assert(all.take(i as int) =~= all);
    out
}

/// Compare two parsed tree files by their full structural paths.
#[must_use]
pub fn compare(old_side: &[SpecTree], new_side: &[SpecTree]) -> (out: Changes)
    ensures
        out@ == changes_between(behaviors(views(old_side@)), behaviors(views(new_side@))),
{
    let before = flatten(old_side);
    let after = flatten(new_side);
    let removed = only_on(&before, &after);
    let added = only_on(&after, &before);
    let mut parents: Vec<String> = Vec::new();
    let ghost all = parents_of(views(removed@));
    let mut i: usize = 0;
    assert(views(parents@) =~= all.take(0));
    while i < removed.len()
        invariant
            i <= removed@.len(),
            all == parents_of(views(removed@)),
            views(parents@) == all.take(i as int),
        decreases removed@.len() - i,
    {
        let ghost so_far = views(parents@);
        let parent = removed[i].parent.clone();
        parents.push(parent);
        i += 1;
        assert(all[i - 1] == removed@[i - 1]@.parent);
        assert(views(parents@) =~= so_far.push(parent@));
        assert(all.take(i as int) =~= all.take(i - 1).push(all[i - 1]));
    }
    assert(all.take(i as int) =~= all);
    let parents = sorted_set(&parents);
    let ghost set = text_set(all);
    let mut renamed: Vec<Rename> = Vec::new();
    let mut k: usize = 0;
    assert(set.take(0) =~= Seq::empty());
    assert(views(renamed@) =~= Seq::empty());
    while k < parents.len()
        invariant
            k <= parents@.len(),
            set == views(parents@),
            views(renamed@) == renames_below(
                views(removed@),
                views(added@),
                set.take(k as int),
            ),
        decreases parents@.len() - k,
    {
        let ghost so_far = views(renamed@);
        assert(set.take(k + 1).drop_last() =~= set.take(k as int));
        assert(set.take(k + 1).last() == parents@[k as int]@);
        if let Some(rename) = find_rename(&removed, &added, parents[k].as_str()) {
            renamed.push(rename);
            assert(views(renamed@) =~= so_far.push(rename@));
        }
        k += 1;
    }
    assert(set.take(k as int) =~= set);
    let out = Changes {
        added: left_over(&added, &removed, &added),
        removed: left_over(&removed, &removed, &added),
        renamed,
    };
    assert(out@ =~= changes_between(behaviors(views(old_side@)), behaviors(views(new_side@))));
    out
}

/// A file compared with itself has no changes.
pub proof fn law_nothing_changes_without_a_difference(side: Seq<BehaviorView>)
    ensures
        changes_between(side, side) == (ChangesView {
            added: Seq::empty(),
            removed: Seq::empty(),
            renamed: Seq::empty(),
        }),
{
    let keep = |item: BehaviorView| !has_path(side, item.path);
    let only = only_here(side, side);
    lemma_filter_holds(side, keep);
    if only.len() > 0 {
        assert(keep(only[0]) && side.contains(only[0]));
        let k = choose|k: int| 0 <= k < side.len() && side[k] == only[0];
        assert(side[k].path == only[0].path);
    }
    assert(parents_of(only) =~= Seq::empty());
    assert(changes_between(side, side) =~= (ChangesView {
        added: Seq::empty(),
        removed: Seq::empty(),
        renamed: Seq::empty(),
    }));
}

proof fn lemma_filter_holds(items: Seq<BehaviorView>, keep: spec_fn(BehaviorView) -> bool)
    ensures
        forall|i: int|
            0 <= i < items.filter(keep).len() ==> keep(#[trigger] items.filter(keep)[i])
                && items.contains(items.filter(keep)[i]),
        forall|i: int|
            0 <= i < items.len() && keep(#[trigger] items[i]) ==> items.filter(keep).contains(
                items[i],
            ),
    decreases items.len(),
{
    reveal(Seq::filter);
    if items.len() > 0 {
        let front = items.drop_last();
        lemma_filter_holds(front, keep);
        let kept = front.filter(keep);
        let out = items.filter(keep);
        assert forall|i: int| 0 <= i < out.len() implies keep(#[trigger] out[i])
            && items.contains(out[i]) by {
            if i < kept.len() {
                assert(out[i] == kept[i]);
                assert(front.contains(kept[i]));
                let k = choose|k: int| 0 <= k < front.len() && front[k] == kept[i];
                assert(items[k] == out[i]);
            } else {
                assert(items[items.len() - 1] == out[i]);
            }
        }
        assert forall|i: int| 0 <= i < items.len() && keep(#[trigger] items[i]) implies out.contains(
            items[i],
        ) by {
            if i < front.len() {
                assert(front[i] == items[i]);
                assert(kept.contains(items[i]));
                let k = choose|k: int| 0 <= k < kept.len() && kept[k] == items[i];
                assert(out[k] == items[i]);
            } else {
                assert(out[out.len() - 1] == items[i]);
            }
        }
    }
}

proof fn lemma_not_renamed(
    items: Seq<BehaviorView>,
    removed: Seq<BehaviorView>,
    added: Seq<BehaviorView>,
)
    ensures
        forall|x: Seq<char>|
            #[trigger] not_renamed(items, removed, added).contains(x) <==> exists|i: int|
                0 <= i < items.len() && (#[trigger] items[i]).path == x && rename_below(
                    removed,
                    added,
                    items[i].parent,
                ) is None,
    decreases items.len(),
{
    if items.len() > 0 {
        let front = items.drop_last();
        let last = items.last();
        lemma_not_renamed(front, removed, added);
        let before = not_renamed(front, removed, added);
        let out = not_renamed(items, removed, added);
        assert forall|x: Seq<char>| #[trigger] out.contains(x) <==> exists|i: int|
            0 <= i < items.len() && (#[trigger] items[i]).path == x && rename_below(
                removed,
                added,
                items[i].parent,
            ) is None by {
            if out.contains(x) {
                let k = choose|k: int| 0 <= k < out.len() && out[k] == x;
                if k < before.len() {
                    assert(before[k] == x);
                    assert(before.contains(x));
                    let i = choose|i: int|
                        0 <= i < front.len() && (#[trigger] front[i]).path == x && rename_below(
                            removed,
                            added,
                            front[i].parent,
                        ) is None;
                    assert(items[i] == front[i]);
                } else {
                    assert(items[items.len() - 1].path == x);
                }
            }
            if exists|i: int|
                0 <= i < items.len() && (#[trigger] items[i]).path == x && rename_below(
                    removed,
                    added,
                    items[i].parent,
                ) is None {
                let i = choose|i: int|
                    0 <= i < items.len() && (#[trigger] items[i]).path == x && rename_below(
                        removed,
                        added,
                        items[i].parent,
                    ) is None;
                if i < front.len() {
                    assert(front[i] == items[i]);
                    assert(before.contains(x));
                    let k = choose|k: int| 0 <= k < before.len() && before[k] == x;
                    assert(out[k] == x);
                } else {
                    assert(out[out.len() - 1] == x);
                }
            }
        }
    }
}

proof fn lemma_renames_below(
    removed: Seq<BehaviorView>,
    added: Seq<BehaviorView>,
    parents: Seq<Seq<char>>,
    parent: Seq<char>,
)
    requires
        parents.contains(parent),
        rename_below(removed, added, parent) is Some,
    ensures
        renames_below(removed, added, parents).contains(
            rename_below(removed, added, parent)->0,
        ),
    decreases parents.len(),
{
    let out = renames_below(removed, added, parents);
    let before = renames_below(removed, added, parents.drop_last());
    if parents.last() == parent {
        assert(out[out.len() - 1] == rename_below(removed, added, parent)->0);
    } else {
        let k = choose|k: int| 0 <= k < parents.len() && parents[k] == parent;
        assert(parents.drop_last()[k] == parent);
        lemma_renames_below(removed, added, parents.drop_last(), parent);
        let m = choose|m: int|
            0 <= m < before.len() && before[m] == rename_below(removed, added, parent)->0;
        assert(out[m] == before[m]);
    }
}

/// A path that is reported as added is not on the old side, and one that is
/// reported as removed is not on the new side.
pub proof fn law_reported_paths_are_on_one_side(
    old_side: Seq<BehaviorView>,
    new_side: Seq<BehaviorView>,
    path: Seq<char>,
)
    ensures
        changes_between(old_side, new_side).added.contains(path) ==> has_path(new_side, path)
            && !has_path(old_side, path),
        changes_between(old_side, new_side).removed.contains(path) ==> has_path(old_side, path)
            && !has_path(new_side, path),
{
    let removed = only_here(old_side, new_side);
    let added = only_here(new_side, old_side);
    lemma_filter_holds(old_side, |item: BehaviorView| !has_path(new_side, item.path));
    lemma_filter_holds(new_side, |item: BehaviorView| !has_path(old_side, item.path));
    lemma_not_renamed(added, removed, added);
    lemma_not_renamed(removed, removed, added);
    if changes_between(old_side, new_side).added.contains(path) {
        let i = choose|i: int|
            0 <= i < added.len() && (#[trigger] added[i]).path == path && rename_below(
                removed,
                added,
                added[i].parent,
            ) is None;
        assert(new_side.contains(added[i]));
        let k = choose|k: int| 0 <= k < new_side.len() && new_side[k] == added[i];
        assert(new_side[k].path == path);
    }
    if changes_between(old_side, new_side).removed.contains(path) {
        let i = choose|i: int|
            0 <= i < removed.len() && (#[trigger] removed[i]).path == path && rename_below(
                removed,
                added,
                removed[i].parent,
            ) is None;
        assert(old_side.contains(removed[i]));
        let k = choose|k: int| 0 <= k < old_side.len() && old_side[k] == removed[i];
        assert(old_side[k].path == path);
    }
}

/// No difference goes unreported: a behavior that only the old side has is
/// reported as removed or as the old path of a rename, and one that only the
/// new side has as added or as the new path of a rename.
pub proof fn law_every_difference_is_reported(
    old_side: Seq<BehaviorView>,
    new_side: Seq<BehaviorView>,
    path: Seq<char>,
)
    ensures
        has_path(old_side, path) && !has_path(new_side, path) ==> {
            let changes = changes_between(old_side, new_side);
            changes.removed.contains(path) || exists|i: int|
                0 <= i < changes.renamed.len() && (#[trigger] changes.renamed[i]).from == path
        },
        has_path(new_side, path) && !has_path(old_side, path) ==> {
            let changes = changes_between(old_side, new_side);
            changes.added.contains(path) || exists|i: int|
                0 <= i < changes.renamed.len() && (#[trigger] changes.renamed[i]).to == path
        },
{
    let changes = changes_between(old_side, new_side);
    let removed = only_here(old_side, new_side);
    let added = only_here(new_side, old_side);
    let parents = text_set(parents_of(removed));
    lemma_text_set(parents_of(removed));
    lemma_filter_holds(old_side, |item: BehaviorView| !has_path(new_side, item.path));
    lemma_filter_holds(new_side, |item: BehaviorView| !has_path(old_side, item.path));
    lemma_not_renamed(added, removed, added);
    lemma_not_renamed(removed, removed, added);
    if has_path(old_side, path) && !has_path(new_side, path) {
        let k = choose|k: int| 0 <= k < old_side.len() && (#[trigger] old_side[k]).path == path;
        assert(removed.contains(old_side[k]));
        let i = choose|i: int| 0 <= i < removed.len() && removed[i] == old_side[k];
        let parent = removed[i].parent;
        match rename_below(removed, added, parent) {
            None => {
                assert(changes.removed.contains(path));
            },
            Some(rename) => {
                assert(parents_of(removed)[i] == parent);
                assert(parents.contains(parent));
                lemma_renames_below(removed, added, parents, parent);
                let only = only_child(removed, parent)->0;
                assert(is_only_child(removed, parent, only));
                assert(i == only);
                let m = choose|m: int| 0 <= m < changes.renamed.len() && changes.renamed[m] == rename;
                assert(changes.renamed[m].from == path);
            },
        }
    }
    if has_path(new_side, path) && !has_path(old_side, path) {
        let k = choose|k: int| 0 <= k < new_side.len() && (#[trigger] new_side[k]).path == path;
        assert(added.contains(new_side[k]));
        let i = choose|i: int| 0 <= i < added.len() && added[i] == new_side[k];
        let parent = added[i].parent;
        match rename_below(removed, added, parent) {
            None => {
                assert(changes.added.contains(path));
            },
            Some(rename) => {
                let from = only_child(removed, parent)->0;
                assert(is_only_child(removed, parent, from));
                assert(parents_of(removed)[from] == parent);
                assert(parents.contains(parent));
                lemma_renames_below(removed, added, parents, parent);
                let only = only_child(added, parent)->0;
                assert(is_only_child(added, parent, only));
                assert(i == only);
                let m = choose|m: int| 0 <= m < changes.renamed.len() && changes.renamed[m] == rename;
                assert(changes.renamed[m].to == path);
            },
        }
    }
}

/// The parents among the given ones below which something was renamed.
spec fn renaming(
    removed: Seq<BehaviorView>,
    added: Seq<BehaviorView>,
    parents: Seq<Seq<char>>,
) -> Seq<Seq<char>>
    decreases parents.len(),
{
    if parents.len() == 0 {
        Seq::empty()
    } else {
        let before = renaming(removed, added, parents.drop_last());
        if rename_below(removed, added, parents.last()) is Some {
            before.push(parents.last())
        } else {
            before
        }
    }
}

proof fn lemma_renaming(
    removed: Seq<BehaviorView>,
    added: Seq<BehaviorView>,
    parents: Seq<Seq<char>>,
)
    requires
        ascending(parents),
    ensures
        ascending(renaming(removed, added, parents)),
        forall|x: Seq<char>|
            #[trigger] renaming(removed, added, parents).contains(x) <==> parents.contains(x)
                && rename_below(removed, added, x) is Some,
        renames_below(removed, added, parents) == renaming(removed, added, parents).map_values(
            |p: Seq<char>| rename_below(removed, added, p)->0,
        ),
    decreases parents.len(),
{
    let out = renaming(removed, added, parents);
    if parents.len() > 0 {
        let front = parents.drop_last();
        let last = parents.last();
        assert(ascending(front)) by {
            assert forall|i: int, j: int| 0 <= i < j < front.len() implies crate::text::text_less(
                #[trigger] front[i],
                #[trigger] front[j],
            ) by {
                assert(front[i] == parents[i] && front[j] == parents[j]);
            }
        }
        lemma_renaming(removed, added, front);
        let before = renaming(removed, added, front);
        assert forall|i: int, j: int| 0 <= i < j < out.len() implies crate::text::text_less(
            #[trigger] out[i],
            #[trigger] out[j],
        ) by {
            if j < before.len() {
                assert(out[i] == before[i] && out[j] == before[j]);
            } else {
                assert(before.contains(before[i]));
                let k = choose|k: int| 0 <= k < front.len() && front[k] == before[i];
                assert(parents[k] == out[i] && parents[parents.len() - 1] == out[j]);
            }
        }
        assert forall|x: Seq<char>| #[trigger] out.contains(x) <==> parents.contains(x)
            && rename_below(removed, added, x) is Some by {
            if out.contains(x) {
                let k = choose|k: int| 0 <= k < out.len() && out[k] == x;
                if k < before.len() {
                    assert(before[k] == x);
                    assert(before.contains(x));
                    let m = choose|m: int| 0 <= m < front.len() && front[m] == x;
                    assert(parents[m] == x);
                } else {
                    assert(parents[parents.len() - 1] == x);
                }
            }
            if parents.contains(x) && rename_below(removed, added, x) is Some {
                let m = choose|m: int| 0 <= m < parents.len() && parents[m] == x;
                if m < front.len() {
                    assert(front[m] == x);
                    assert(before.contains(x));
                    let k = choose|k: int| 0 <= k < before.len() && before[k] == x;
                    assert(out[k] == x);
                } else {
                    assert(out[out.len() - 1] == x);
                }
            }
        }
    }
    assert(renames_below(removed, added, parents) =~= out.map_values(
        |p: Seq<char>| rename_below(removed, added, p)->0,
    ));
}

/// The rename seen from the other side.
pub open spec fn reversed(rename: RenameView) -> RenameView {
    RenameView { from: rename.to, to: rename.from }
}

/// Comparing the other way round swaps what was added with what was removed
/// and turns every rename round.
pub proof fn law_comparing_backwards_mirrors(
    old_side: Seq<BehaviorView>,
    new_side: Seq<BehaviorView>,
)
    ensures
        changes_between(new_side, old_side).added == changes_between(old_side, new_side).removed,
        changes_between(new_side, old_side).removed == changes_between(old_side, new_side).added,
        changes_between(new_side, old_side).renamed == changes_between(
            old_side,
            new_side,
        ).renamed.map_values(|rename: RenameView| reversed(rename)),
{
    let removed = only_here(old_side, new_side);
    let added = only_here(new_side, old_side);
    assert forall|p: Seq<char>| (#[trigger] rename_below(added, removed, p)) == (match rename_below(
        removed,
        added,
        p,
    ) {
        Some(rename) => Some(reversed(rename)),
        None => None,
    }) by {
        let forward = rename_below(removed, added, p);
    }
    lemma_not_renamed_mirrors(added, removed, added);
    lemma_not_renamed_mirrors(removed, removed, added);
    let here = text_set(parents_of(removed));
    let there = text_set(parents_of(added));
    lemma_text_set(parents_of(removed));
    lemma_text_set(parents_of(added));
    lemma_renaming(removed, added, here);
    lemma_renaming(added, removed, there);
    let one = renaming(removed, added, here);
    let other = renaming(added, removed, there);
    assert forall|x: Seq<char>| #[trigger] one.contains(x) <==> other.contains(x) by {
        assert(rename_below(added, removed, x) is Some <==> rename_below(removed, added, x)
            is Some);
        if rename_below(removed, added, x) is Some {
            let i = only_child(removed, x)->0;
            let j = only_child(added, x)->0;
            assert(is_only_child(removed, x, i));
            assert(is_only_child(added, x, j));
            assert(parents_of(removed)[i] == x);
            assert(parents_of(added)[j] == x);
        }
    }
    lemma_ascending_unique(one, other);
    let back = changes_between(new_side, old_side).renamed;
    let forth = changes_between(old_side, new_side).renamed;
    assert forall|i: int| 0 <= i < back.len() implies back[i] == reversed(forth[i]) by {
        assert(rename_below(removed, added, one[i]) is Some) by {
            assert(one.contains(one[i]));
        }
        assert(rename_below(added, removed, one[i]) is Some);
    }
    assert(back =~= forth.map_values(|rename: RenameView| reversed(rename)));
}

proof fn lemma_not_renamed_mirrors(
    items: Seq<BehaviorView>,
    removed: Seq<BehaviorView>,
    added: Seq<BehaviorView>,
)
    ensures
        not_renamed(items, removed, added) == not_renamed(items, added, removed),
    decreases items.len(),
{
    if items.len() > 0 {
        lemma_not_renamed_mirrors(items.drop_last(), removed, added);
        let forward = rename_below(removed, added, items.last().parent);
        let backward = rename_below(added, removed, items.last().parent);
        assert(forward is Some <==> backward is Some);
    }
}

/// Whether numbers lead to a node: to one of the given nodes, to one of its
/// children, and so on.
pub open spec fn is_route(nodes: Seq<SpecNodeView>, route: Seq<int>) -> bool
    decreases route.len(),
{
    &&& route.len() > 0
    &&& 0 <= route[0] < nodes.len()
    &&& route.len() > 1 ==> is_route(nodes[route[0]].children, route.drop_first())
}

/// The texts of the nodes that a route leads through, behind the text that it
/// starts from.
pub open spec fn route_path(from: Seq<char>, nodes: Seq<SpecNodeView>, route: Seq<int>) -> Seq<char>
    decreases route.len(),
{
    let path = from + seq![' ', '>', ' '] + nodes[route[0]].text;
    if route.len() <= 1 {
        path
    } else {
        route_path(path, nodes[route[0]].children, route.drop_first())
    }
}

/// The path of the node above the one that a route leads to.
pub open spec fn route_parent(from: Seq<char>, nodes: Seq<SpecNodeView>, route: Seq<int>) -> Seq<
    char,
>
    decreases route.len(),
{
    if route.len() <= 1 {
        from
    } else {
        route_parent(
            from + seq![' ', '>', ' '] + nodes[route[0]].text,
            nodes[route[0]].children,
            route.drop_first(),
        )
    }
}

/// The kind of the node that a route leads to.
pub open spec fn route_kind(nodes: Seq<SpecNodeView>, route: Seq<int>) -> NodeKind
    decreases route.len(),
{
    if route.len() <= 1 {
        nodes[route[0]].kind
    } else {
        route_kind(nodes[route[0]].children, route.drop_first())
    }
}

/// The behavior that stands at the end of a route.
pub open spec fn routed(from: Seq<char>, nodes: Seq<SpecNodeView>, route: Seq<int>) -> BehaviorView {
    BehaviorView {
        path: route_path(from, nodes, route),
        parent: route_parent(from, nodes, route),
        position: route.last() as nat,
        kind: route_kind(nodes, route),
    }
}

proof fn lemma_arrow()
    ensures
        " > "@ == seq![' ', '>', ' '],
{
    reveal_strlit(" > ");
    assert(" > "@ =~= seq![' ', '>', ' ']);
}

proof fn lemma_in_concat(a: Seq<BehaviorView>, b: Seq<BehaviorView>, x: BehaviorView)
    ensures
        (a + b).contains(x) <==> a.contains(x) || b.contains(x),
{
    if a.contains(x) {
        assert((a + b)[a.index_of(x)] == x);
    }
    if b.contains(x) {
        assert((a + b)[a.len() + b.index_of(x)] == x);
    }
    if (a + b).contains(x) {
        let i = (a + b).index_of(x);
        if i < a.len() {
            assert(a[i] == x);
        } else {
            assert(b[i - a.len()] == x);
        }
    }
}

proof fn lemma_node_listed(nodes: Seq<SpecNodeView>, from: Seq<char>, route: Seq<int>)
    requires
        is_route(nodes, route),
    ensures
        node_behaviors(nodes, from).contains(routed(from, nodes, route)),
    decreases nodes,
{
    lemma_arrow();
    let last = nodes.last();
    let path = from + " > "@ + last.text;
    let front = node_behaviors(nodes.drop_last(), from);
    let own = BehaviorView {
        path,
        parent: from,
        position: (nodes.len() - 1) as nat,
        kind: last.kind,
    };
    let below = node_behaviors(last.children, path);
    let x = routed(from, nodes, route);
    lemma_in_concat(front.push(own), below, x);
    if route[0] < nodes.len() - 1 {
        assert(is_route(nodes.drop_last(), route));
        lemma_routed_front(nodes, from, route);
        lemma_node_listed(nodes.drop_last(), from, route);
        assert(front.push(own)[front.index_of(x)] == x);
    } else if route.len() == 1 {
        assert(route.last() == route[0]);
        assert(front.push(own)[front.len() as int] == x);
    } else {
        let rest = route.drop_first();
        lemma_node_listed(last.children, path, rest);
        assert(route.last() == rest.last());
        assert(x == routed(path, last.children, rest));
    }
}

proof fn lemma_routed_front(nodes: Seq<SpecNodeView>, from: Seq<char>, route: Seq<int>)
    requires
        is_route(nodes, route),
        route[0] < nodes.len() - 1,
    ensures
        is_route(nodes.drop_last(), route),
        routed(from, nodes, route) == routed(from, nodes.drop_last(), route),
{
    assert(nodes.drop_last()[route[0]] == nodes[route[0]]);
}

/// Every node of every tree of a file is a behavior of the file, at any depth:
/// its path is the text of the root and the texts of the nodes down to it,
/// joined by ` > `.
pub proof fn law_every_node_is_a_behavior(trees: Seq<SpecTreeView>, k: int, route: Seq<int>)
    requires
        0 <= k < trees.len(),
        is_route(trees[k].children, route),
    ensures
        behaviors(trees).contains(routed(trees[k].root, trees[k].children, route)),
    decreases trees.len(),
{
    let last = trees.last();
    let x = routed(trees[k].root, trees[k].children, route);
    lemma_in_concat(
        behaviors(trees.drop_last()),
        node_behaviors(last.children, last.root),
        x,
    );
    if k < trees.len() - 1 {
        assert(trees.drop_last()[k] == trees[k]);
        law_every_node_is_a_behavior(trees.drop_last(), k, route);
    } else {
        lemma_node_listed(last.children, last.root, route);
    }
}

proof fn lemma_listed_node(nodes: Seq<SpecNodeView>, from: Seq<char>, x: BehaviorView) -> (route:
    Seq<int>)
    requires
        node_behaviors(nodes, from).contains(x),
    ensures
        is_route(nodes, route),
        x == routed(from, nodes, route),
    decreases nodes,
{
    lemma_arrow();
    let last = nodes.last();
    let path = from + " > "@ + last.text;
    let front = node_behaviors(nodes.drop_last(), from);
    let own = BehaviorView {
        path,
        parent: from,
        position: (nodes.len() - 1) as nat,
        kind: last.kind,
    };
    let below = node_behaviors(last.children, path);
    lemma_in_concat(front.push(own), below, x);
    assert(front.push(own) =~= front + seq![own]);
    lemma_in_concat(front, seq![own], x);
    if front.contains(x) {
        let route = lemma_listed_node(nodes.drop_last(), from, x);
        assert(nodes.drop_last()[route[0]] == nodes[route[0]]);
        route
    } else if below.contains(x) {
        let rest = lemma_listed_node(last.children, path, x);
        let route = seq![nodes.len() - 1] + rest;
        assert(route.drop_first() =~= rest);
        assert(route.last() == rest.last());
        route
    } else {
        assert(seq![own].contains(x));
        let route = seq![nodes.len() - 1];
        assert(route.last() == nodes.len() - 1);
        assert(x == own);
        route
    }
}

/// Every behavior of a file is that of a node of one of its trees.
pub proof fn law_every_behavior_is_a_node(trees: Seq<SpecTreeView>, i: int)
    requires
        0 <= i < behaviors(trees).len(),
    ensures
        exists|k: int, route: Seq<int>|
            0 <= k < trees.len() && is_route(trees[k].children, route) && behaviors(trees)[i]
                == #[trigger] routed(trees[k].root, trees[k].children, route),
    decreases trees.len(),
{
    let last = trees.last();
    let front = behaviors(trees.drop_last());
    let own = node_behaviors(last.children, last.root);
    let x = behaviors(trees)[i];
    if i < front.len() {
        law_every_behavior_is_a_node(trees.drop_last(), i);
        let (k, route) = choose|k: int, route: Seq<int>|
            0 <= k < trees.drop_last().len() && is_route(trees.drop_last()[k].children, route)
                && front[i] == #[trigger] routed(
                trees.drop_last()[k].root,
                trees.drop_last()[k].children,
                route,
            );
        assert(trees.drop_last()[k] == trees[k]);
        assert(x == routed(trees[k].root, trees[k].children, route));
    } else {
        assert(own[i - front.len()] == x);
        let route = lemma_listed_node(last.children, last.root, x);
        let k = trees.len() - 1;
        assert(x == routed(trees[k].root, trees[k].children, route));
    }
}

/// How many nodes there are, those below them among them.
pub open spec fn node_count(nodes: Seq<SpecNodeView>) -> nat
    decreases nodes,
{
    if nodes.len() == 0 {
        0
    } else {
        1 + node_count(nodes[0].children) + node_count(nodes.drop_first())
    }
}

/// How many nodes the trees of a file have together.
pub open spec fn tree_count(trees: Seq<SpecTreeView>) -> nat
    decreases trees.len(),
{
    if trees.len() == 0 {
        0
    } else {
        node_count(trees[0].children) + tree_count(trees.drop_first())
    }
}

proof fn lemma_count_last(nodes: Seq<SpecNodeView>)
    requires
        nodes.len() > 0,
    ensures
        node_count(nodes) == node_count(nodes.drop_last()) + 1 + node_count(nodes.last().children),
    decreases nodes.len(),
{
    if nodes.len() == 1 {
        assert(nodes.drop_first() =~= Seq::empty());
        assert(nodes.drop_last() =~= Seq::empty());
        assert(node_count(Seq::<SpecNodeView>::empty()) == 0);
    } else {
        lemma_count_last(nodes.drop_first());
        assert(nodes.drop_first().drop_last() =~= nodes.drop_last().drop_first());
        assert(nodes.drop_first().last() == nodes.last());
        assert(nodes.drop_last()[0] == nodes[0]);
    }
}

proof fn lemma_node_count(nodes: Seq<SpecNodeView>, from: Seq<char>)
    ensures
        node_behaviors(nodes, from).len() == node_count(nodes),
    decreases nodes,
{
    if nodes.len() > 0 {
        lemma_count_last(nodes);
        lemma_node_count(nodes.drop_last(), from);
        lemma_node_count(nodes.last().children, from + " > "@ + nodes.last().text);
    }
}

proof fn lemma_tree_count_last(trees: Seq<SpecTreeView>)
    requires
        trees.len() > 0,
    ensures
        tree_count(trees) == tree_count(trees.drop_last()) + node_count(trees.last().children),
    decreases trees.len(),
{
    if trees.len() == 1 {
        assert(trees.drop_first() =~= Seq::empty());
        assert(trees.drop_last() =~= Seq::empty());
        assert(tree_count(Seq::<SpecTreeView>::empty()) == 0);
    } else {
        lemma_tree_count_last(trees.drop_first());
        assert(trees.drop_first().drop_last() =~= trees.drop_last().drop_first());
        assert(trees.drop_first().last() == trees.last());
        assert(trees.drop_last()[0] == trees[0]);
    }
}

/// A file has as many behaviors as its trees have nodes together.
pub proof fn law_behaviors_are_as_many_as_nodes(trees: Seq<SpecTreeView>)
    ensures
        behaviors(trees).len() == tree_count(trees),
    decreases trees.len(),
{
    if trees.len() > 0 {
        lemma_tree_count_last(trees);
        law_behaviors_are_as_many_as_nodes(trees.drop_last());
        lemma_node_count(trees.last().children, trees.last().root);
    }
}

/// Whether a path is that of a node of one of the trees of a file.
pub open spec fn has_node(trees: Seq<SpecTreeView>, path: Seq<char>) -> bool {
    exists|k: int, route: Seq<int>|
        0 <= k < trees.len() && is_route(trees[k].children, route) && path == #[trigger] route_path(
            trees[k].root,
            trees[k].children,
            route,
        )
}

proof fn lemma_has_node(trees: Seq<SpecTreeView>, path: Seq<char>)
    ensures
        has_node(trees, path) <==> has_path(behaviors(trees), path),
{
    let all = behaviors(trees);
    if has_node(trees, path) {
        let (k, route) = choose|k: int, route: Seq<int>|
            0 <= k < trees.len() && is_route(trees[k].children, route) && path
                == #[trigger] route_path(trees[k].root, trees[k].children, route);
        law_every_node_is_a_behavior(trees, k, route);
        let i = all.index_of(routed(trees[k].root, trees[k].children, route));
        assert(all[i].path == path);
    }
    if has_path(all, path) {
        let i = choose|i: int| 0 <= i < all.len() && (#[trigger] all[i]).path == path;
        law_every_behavior_is_a_node(trees, i);
        let (k, route) = choose|k: int, route: Seq<int>|
            0 <= k < trees.len() && is_route(trees[k].children, route) && all[i]
                == #[trigger] routed(trees[k].root, trees[k].children, route);
        assert(path == route_path(trees[k].root, trees[k].children, route));
    }
}

/// What comparing two files reports: as added, or as the new path of a rename,
/// every path that a node of the new file has and no node of the old one, and as
/// removed, or as the old path of a rename, every path the other way round; and
/// no other path as any of these.
pub proof fn law_changes_are_the_paths_of_one_file(
    old_side: Seq<SpecTreeView>,
    new_side: Seq<SpecTreeView>,
    path: Seq<char>,
)
    ensures
        ({
            let changes = changes_between(behaviors(old_side), behaviors(new_side));
            let came = exists|i: int|
                0 <= i < changes.renamed.len() && (#[trigger] changes.renamed[i]).to == path;
            let went = exists|i: int|
                0 <= i < changes.renamed.len() && (#[trigger] changes.renamed[i]).from == path;
            &&& has_node(new_side, path) && !has_node(old_side, path) <==> changes.added.contains(
                path,
            ) || came
            &&& has_node(old_side, path) && !has_node(new_side, path) <==> changes.removed.contains(
                path,
            ) || went
        }),
{
    let before = behaviors(old_side);
    let after = behaviors(new_side);
    let changes = changes_between(before, after);
    lemma_has_node(old_side, path);
    lemma_has_node(new_side, path);
    law_every_difference_is_reported(before, after, path);
    law_reported_paths_are_on_one_side(before, after, path);
    if exists|i: int| 0 <= i < changes.renamed.len() && (#[trigger] changes.renamed[i]).to == path {
        let i = choose|i: int|
            0 <= i < changes.renamed.len() && (#[trigger] changes.renamed[i]).to == path;
        lemma_rename_of(before, after, i);
    }
    if exists|i: int| 0 <= i < changes.renamed.len() && (#[trigger] changes.renamed[i]).from == path {
        let i = choose|i: int|
            0 <= i < changes.renamed.len() && (#[trigger] changes.renamed[i]).from == path;
        lemma_rename_of(before, after, i);
    }
}

proof fn lemma_renames_from(
    removed: Seq<BehaviorView>,
    added: Seq<BehaviorView>,
    parents: Seq<Seq<char>>,
    i: int,
) -> (parent: Seq<char>)
    requires
        0 <= i < renames_below(removed, added, parents).len(),
    ensures
        parents.contains(parent),
        rename_below(removed, added, parent) == Some(renames_below(removed, added, parents)[i]),
    decreases parents.len(),
{
    let before = renames_below(removed, added, parents.drop_last());
    if i < before.len() {
        let parent = lemma_renames_from(removed, added, parents.drop_last(), i);
        let k = parents.drop_last().index_of(parent);
        assert(parents[k] == parent);
        parent
    } else {
        assert(parents[parents.len() - 1] == parents.last());
        parents.last()
    }
}

proof fn lemma_rename_of(before: Seq<BehaviorView>, after: Seq<BehaviorView>, i: int)
    requires
        0 <= i < changes_between(before, after).renamed.len(),
    ensures
        ({
            let rename = changes_between(before, after).renamed[i];
            &&& has_path(before, rename.from) && !has_path(after, rename.from)
            &&& has_path(after, rename.to) && !has_path(before, rename.to)
        }),
{
    let removed = only_here(before, after);
    let added = only_here(after, before);
    lemma_filter_holds(before, |item: BehaviorView| !has_path(after, item.path));
    lemma_filter_holds(after, |item: BehaviorView| !has_path(before, item.path));
    let parent = lemma_renames_from(removed, added, text_set(parents_of(removed)), i);
    let a = only_child(removed, parent)->0;
    let b = only_child(added, parent)->0;
    assert(is_only_child(removed, parent, a));
    assert(is_only_child(added, parent, b));
    assert(before.contains(removed[a]) && after.contains(added[b]));
    assert(before[before.index_of(removed[a])].path == removed[a].path);
    assert(after[after.index_of(added[b])].path == added[b].path);
}

/// Whether a behavior of one side is the only one below its parent whose path
/// the other side does not have.
pub open spec fn changed_alone(here: Seq<BehaviorView>, there: Seq<BehaviorView>, i: int) -> bool {
    &&& 0 <= i < here.len()
    &&& forall|m: int| 0 <= m < there.len() ==> (#[trigger] there[m]).path != here[i].path
    &&& forall|k: int|
        0 <= k < here.len() && k != i && (#[trigger] here[k]).parent == here[i].parent ==> exists|
            m: int,
        |
            0 <= m < there.len() && (#[trigger] there[m]).path == here[k].path
}

spec fn kept_below(items: Seq<BehaviorView>, there: Seq<BehaviorView>, parent: Seq<char>) -> nat
    decreases items.len(),
{
    if items.len() == 0 {
        0
    } else {
        kept_below(items.drop_last(), there, parent) + if items.last().parent == parent && !has_path(
            there,
            items.last().path,
        ) {
            1nat
        } else {
            0nat
        }
    }
}

/// The only behavior below a parent that one side alone has, in the list of
/// those that it alone has and in its own.
proof fn lemma_alone(
    here: Seq<BehaviorView>,
    there: Seq<BehaviorView>,
    parent: Seq<char>,
    x: BehaviorView,
)
    requires
        x.parent == parent,
    ensures
        ({
            let only = only_here(here, there);
            (exists|a: int| #[trigger] is_only_child(only, parent, a) && only[a] == x) <==> exists|
                i: int,
            | #[trigger]
                changed_alone(here, there, i) && here[i] == x
        }),
    decreases here.len(),
{
    let only = only_here(here, there);
    let keep = |item: BehaviorView| !has_path(there, item.path);
    lemma_filter_holds(here, keep);
    lemma_kept(here, there, parent);
    if exists|a: int| #[trigger] is_only_child(only, parent, a) && only[a] == x {
        let a = choose|a: int| #[trigger] is_only_child(only, parent, a) && only[a] == x;
        lemma_one_below(only, there, parent, a);
        lemma_kept(here, there, parent);
        assert(here.contains(only[a]));
        let i = here.index_of(only[a]);
        assert(keep(only[a]));
        lemma_count_one(here, there, parent, i);
        assert(changed_alone(here, there, i));
    }
    if exists|i: int| #[trigger] changed_alone(here, there, i) && here[i] == x {
        let i = choose|i: int| #[trigger] changed_alone(here, there, i) && here[i] == x;
        assert(keep(here[i])) by {
            if has_path(there, here[i].path) {
                let m = choose|m: int| 0 <= m < there.len() && (#[trigger] there[m]).path
                    == here[i].path;
            }
        }
        assert(only.contains(here[i]));
        let a = only.index_of(here[i]);
        lemma_alone_counts(here, there, i);
        assert(kept_below(only, there, parent) == 1);
        lemma_count_one(only, there, parent, a);
        assert forall|j: int| 0 <= j < only.len() && (#[trigger] only[j]).parent
            == parent implies j == a by {
            assert(keep(only[j]));
        }
        assert(is_only_child(only, parent, a));
    }
}

proof fn lemma_kept(here: Seq<BehaviorView>, there: Seq<BehaviorView>, parent: Seq<char>)
    ensures
        kept_below(only_here(here, there), there, parent) == kept_below(here, there, parent),
    decreases here.len(),
{
    reveal(Seq::filter);
    let keep = |item: BehaviorView| !has_path(there, item.path);
    if here.len() > 0 {
        lemma_kept(here.drop_last(), there, parent);
        let front = here.drop_last().filter(keep);
        assert(only_here(here.drop_last(), there) == front);
        if keep(here.last()) {
            assert(only_here(here, there) == front.push(here.last()));
            assert(front.push(here.last()).drop_last() =~= front);
        } else {
            assert(only_here(here, there) == front);
        }
    } else {
        assert(only_here(here, there) =~= Seq::empty());
    }
}

/// Where just one behavior counts, any that counts is that one.
proof fn lemma_count_one(
    items: Seq<BehaviorView>,
    there: Seq<BehaviorView>,
    parent: Seq<char>,
    i: int,
)
    requires
        kept_below(items, there, parent) == 1,
        0 <= i < items.len(),
        items[i].parent == parent,
        !has_path(there, items[i].path),
    ensures
        forall|k: int|
            0 <= k < items.len() && k != i && (#[trigger] items[k]).parent == parent ==> has_path(
                there,
                items[k].path,
            ),
    decreases items.len(),
{
    let front = items.drop_last();
    if i == items.len() - 1 {
        lemma_count_none(front, there, parent);
        assert forall|k: int|
            0 <= k < items.len() && k != i && (#[trigger] items[k]).parent
                == parent implies has_path(there, items[k].path) by {
            assert(front[k] == items[k]);
        }
    } else {
        assert(front[i] == items[i]);
        lemma_count_some(front, there, parent, i);
        lemma_count_one(front, there, parent, i);
        assert forall|k: int|
            0 <= k < items.len() && k != i && (#[trigger] items[k]).parent
                == parent implies has_path(there, items[k].path) by {
            if k < front.len() {
                assert(front[k] == items[k]);
            }
        }
    }
}

proof fn lemma_count_some(
    items: Seq<BehaviorView>,
    there: Seq<BehaviorView>,
    parent: Seq<char>,
    i: int,
)
    requires
        0 <= i < items.len(),
        items[i].parent == parent,
        !has_path(there, items[i].path),
    ensures
        kept_below(items, there, parent) >= 1,
    decreases items.len(),
{
    if i < items.len() - 1 {
        assert(items.drop_last()[i] == items[i]);
        lemma_count_some(items.drop_last(), there, parent, i);
    }
}

proof fn lemma_count_none(items: Seq<BehaviorView>, there: Seq<BehaviorView>, parent: Seq<char>)
    requires
        kept_below(items, there, parent) == 0,
    ensures
        forall|k: int|
            0 <= k < items.len() && (#[trigger] items[k]).parent == parent ==> has_path(
                there,
                items[k].path,
            ),
    decreases items.len(),
{
    if items.len() > 0 {
        lemma_count_none(items.drop_last(), there, parent);
        assert forall|k: int|
            0 <= k < items.len() && (#[trigger] items[k]).parent == parent implies has_path(
            there,
            items[k].path,
        ) by {
            if k < items.len() - 1 {
                assert(items.drop_last()[k] == items[k]);
            }
        }
    }
}

/// Where just one behavior below a parent is listed, just one counts.
proof fn lemma_one_below(
    items: Seq<BehaviorView>,
    there: Seq<BehaviorView>,
    parent: Seq<char>,
    a: int,
)
    requires
        is_only_child(items, parent, a),
        !has_path(there, items[a].path),
    ensures
        kept_below(items, there, parent) == 1,
    decreases items.len(),
{
    let front = items.drop_last();
    if a == items.len() - 1 {
        assert forall|j: int| 0 <= j < front.len() implies (#[trigger] front[j]).parent != parent by {
            assert(front[j] == items[j]);
        }
        lemma_none_below(front, there, parent);
    } else {
        assert(front[a] == items[a]);
        assert forall|j: int|
            0 <= j < front.len() && (#[trigger] front[j]).parent == parent implies j == a by {
            assert(front[j] == items[j]);
        }
        lemma_one_below(front, there, parent, a);
        assert(items[items.len() - 1].parent != parent);
    }
}

proof fn lemma_none_below(items: Seq<BehaviorView>, there: Seq<BehaviorView>, parent: Seq<char>)
    requires
        forall|j: int| 0 <= j < items.len() ==> (#[trigger] items[j]).parent != parent,
    ensures
        kept_below(items, there, parent) == 0,
    decreases items.len(),
{
    if items.len() > 0 {
        assert forall|j: int| 0 <= j < items.drop_last().len() implies (
        #[trigger] items.drop_last()[j]).parent != parent by {
            assert(items.drop_last()[j] == items[j]);
        }
        lemma_none_below(items.drop_last(), there, parent);
        assert(items[items.len() - 1].parent != parent);
    }
}

proof fn lemma_alone_counts(here: Seq<BehaviorView>, there: Seq<BehaviorView>, i: int)
    requires
        changed_alone(here, there, i),
    ensures
        kept_below(here, there, here[i].parent) == 1,
        kept_below(only_here(here, there), there, here[i].parent) == 1,
{
    lemma_kept(here, there, here[i].parent);
    lemma_counts_upto(here, there, i, here.len() as int);
    assert(here.take(here.len() as int) =~= here);
}

proof fn lemma_counts_upto(here: Seq<BehaviorView>, there: Seq<BehaviorView>, i: int, n: int)
    requires
        changed_alone(here, there, i),
        0 <= n <= here.len(),
    ensures
        kept_below(here.take(n), there, here[i].parent) == if i < n {
            1nat
        } else {
            0nat
        },
    decreases n,
{
    if n > 0 {
        lemma_counts_upto(here, there, i, n - 1);
        let some = here.take(n);
        assert(some.drop_last() =~= here.take(n - 1));
        assert(some.last() == here[n - 1]);
        if n - 1 == i {
            if has_path(there, here[i].path) {
                let m = choose|m: int| 0 <= m < there.len() && (#[trigger] there[m]).path
                    == here[i].path;
            }
        } else if here[n - 1].parent == here[i].parent {
            let m = choose|m: int| 0 <= m < there.len() && (#[trigger] there[m]).path
                == here[n - 1].path;
            assert(has_path(there, here[n - 1].path));
        }
    }
}

/// A rename is reported exactly where, below one parent, just one behavior went
/// and just one came, at the same position and of the same kind: from the path
/// of the one to the path of the other.
pub proof fn law_renames_are_unambiguous(
    before: Seq<BehaviorView>,
    after: Seq<BehaviorView>,
    from: Seq<char>,
    to: Seq<char>,
)
    ensures
        changes_between(before, after).renamed.contains(RenameView { from, to }) <==> exists|
            i: int,
            j: int,
        |
            {
                &&& #[trigger] changed_alone(before, after, i)
                &&& #[trigger] changed_alone(after, before, j)
                &&& before[i].parent == after[j].parent
                &&& before[i].position == after[j].position
                &&& before[i].kind == after[j].kind
                &&& before[i].path == from
                &&& after[j].path == to
            },
{
    let removed = only_here(before, after);
    let added = only_here(after, before);
    let renamed = changes_between(before, after).renamed;
    let rename = RenameView { from, to };
    let parents = text_set(parents_of(removed));
    lemma_text_set(parents_of(removed));
    if renamed.contains(rename) {
        let n = renamed.index_of(rename);
        let parent = lemma_renames_from(removed, added, parents, n);
        let a = only_child(removed, parent)->0;
        let b = only_child(added, parent)->0;
        assert(is_only_child(removed, parent, a));
        assert(is_only_child(added, parent, b));
        lemma_alone(before, after, parent, removed[a]);
        lemma_alone(after, before, parent, added[b]);
        let i = choose|i: int| #[trigger]
            changed_alone(before, after, i) && before[i] == removed[a];
        let j = choose|j: int| #[trigger] changed_alone(after, before, j) && after[j] == added[b];
        assert(changed_alone(before, after, i) && changed_alone(after, before, j));
    }
    if exists|i: int, j: int|
        {
            &&& #[trigger] changed_alone(before, after, i)
            &&& #[trigger] changed_alone(after, before, j)
            &&& before[i].parent == after[j].parent
            &&& before[i].position == after[j].position
            &&& before[i].kind == after[j].kind
            &&& before[i].path == from
            &&& after[j].path == to
        } {
        let (i, j) = choose|i: int, j: int|
            {
                &&& #[trigger] changed_alone(before, after, i)
                &&& #[trigger] changed_alone(after, before, j)
                &&& before[i].parent == after[j].parent
                &&& before[i].position == after[j].position
                &&& before[i].kind == after[j].kind
                &&& before[i].path == from
                &&& after[j].path == to
            };
        let parent = before[i].parent;
        lemma_alone(before, after, parent, before[i]);
        lemma_alone(after, before, parent, after[j]);
        let a = choose|a: int| #[trigger]
            is_only_child(removed, parent, a) && removed[a] == before[i];
        let b = choose|b: int| #[trigger] is_only_child(added, parent, b) && added[b] == after[j];
        let oa = only_child(removed, parent)->0;
        let ob = only_child(added, parent)->0;
        assert(is_only_child(removed, parent, oa) && is_only_child(added, parent, ob));
        assert(oa == a && ob == b);
        assert(rename_below(removed, added, parent) == Some(rename));
        assert(parents_of(removed)[a] == parent);
        assert(parents.contains(parent));
        lemma_renames_below(removed, added, parents, parent);
    }
}

/// The behaviors of a file are in the order of the document: a node comes behind
/// its earlier siblings and what they hold, and before what it holds itself.
pub proof fn law_behaviors_are_in_document_order(
    nodes: Seq<SpecNodeView>,
    node: SpecNodeView,
    parent: Seq<char>,
    trees: Seq<SpecTreeView>,
    tree: SpecTreeView,
)
    ensures
        node_behaviors(Seq::empty(), parent) == Seq::<BehaviorView>::empty(),
        node_behaviors(nodes.push(node), parent) == node_behaviors(nodes, parent) + seq![
            BehaviorView {
                path: parent + seq![' ', '>', ' '] + node.text,
                parent,
                position: nodes.len(),
                kind: node.kind,
            },
        ] + node_behaviors(node.children, parent + seq![' ', '>', ' '] + node.text),
        behaviors(Seq::empty()) == Seq::<BehaviorView>::empty(),
        behaviors(trees.push(tree)) == behaviors(trees) + node_behaviors(tree.children, tree.root),
{
    reveal_strlit(" > ");
    assert(" > "@ =~= seq![' ', '>', ' ']);
    assert(nodes.push(node).drop_last() =~= nodes);
    assert(trees.push(tree).drop_last() =~= trees);
    let path = parent + " > "@ + node.text;
    let b = BehaviorView { path, parent, position: nodes.len(), kind: node.kind };
    assert(node_behaviors(nodes, parent).push(b) =~= node_behaviors(nodes, parent) + seq![b]);
}

/// What is on one side alone is listed in the order of that side, without what
/// was renamed; renames are listed in the order of their parents.
pub proof fn law_changes_are_listed_in_order(
    old_side: Seq<BehaviorView>,
    new_side: Seq<BehaviorView>,
    items: Seq<BehaviorView>,
    item: BehaviorView,
    parents: Seq<Seq<char>>,
    parent: Seq<char>,
)
    ensures
        ({
            let removed = only_here(old_side, new_side);
            let added = only_here(new_side, old_side);
            let changes = changes_between(old_side, new_side);
            &&& changes.added == not_renamed(added, removed, added)
            &&& changes.removed == not_renamed(removed, removed, added)
            &&& changes.renamed == renames_below(
                removed,
                added,
                text_set(
                    Seq::new(removed.len(), |i: int| removed[i].parent),
                ),
            )
            &&& not_renamed(Seq::empty(), removed, added) == Seq::<Seq<char>>::empty()
            &&& not_renamed(items.push(item), removed, added) == if rename_below(
                removed,
                added,
                item.parent,
            ) is Some {
                not_renamed(items, removed, added)
            } else {
                not_renamed(items, removed, added).push(item.path)
            }
            &&& renames_below(removed, added, Seq::empty()) == Seq::<RenameView>::empty()
            &&& renames_below(removed, added, parents.push(parent)) == match rename_below(
                removed,
                added,
                parent,
            ) {
                Some(rename) => renames_below(removed, added, parents).push(rename),
                None => renames_below(removed, added, parents),
            }
        }),
        only_here(Seq::empty(), old_side) == Seq::<BehaviorView>::empty(),
        only_here(items.push(item), old_side) == if exists|i: int|
            0 <= i < old_side.len() && (#[trigger] old_side[i]).path == item.path {
            only_here(items, old_side)
        } else {
            only_here(items, old_side).push(item)
        },
{
    reveal(Seq::filter);
    assert(items.push(item).drop_last() =~= items);
    assert(parents.push(parent).drop_last() =~= parents);
    let removed = only_here(old_side, new_side);
    assert(parents_of(removed) =~= Seq::new(removed.len(), |i: int| removed[i].parent));
}

} // verus!
